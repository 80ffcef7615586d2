//! The edge-list format: one `u v` pair per line, `#` starting a comment.

use vstd::prelude::*;
use crate::text::{
    char_in, find_char, first_two_words, is_ws, lemma_first_from,
    lemma_first_from_unique, non_ws_in, skip_ws, word_end, ws_in,
};

verus! {

/// An edge as the text names it: the names of its two endpoints.
pub type Edge = (Seq<char>, Seq<char>);

/// The part of a line before its first `#`.
pub open spec fn before_hash(l: Seq<char>) -> Seq<char> {
    l.subrange(0, find_char(l, 0, '#'))
}

/// The edge that a line names: the first two words of the line once its
/// comment is cut off. A line with fewer words names none; words after the
/// second are ignored.
pub open spec fn line_edge(l: Seq<char>) -> Option<Edge> {
    first_two_words(before_hash(l))
}

/// The index of the `\n` that ends the line starting at `i`, or `s.len()`.
/// (A `\r` before the `\n` is whitespace, so it changes no word.)
pub open spec fn line_end(s: Seq<char>, i: int) -> int {
    find_char(s, i, '\n')
}

/// The edges that the lines from index `i` on name, in order.
pub open spec fn edges_from(s: Seq<char>, i: int) -> Seq<Edge>
    decreases s.len() + 1 - i,
{
    if 0 <= i < s.len() {
        proof {
            lemma_first_from(char_in(s, '\n'), i, s.len() as int);
        }
        let e = line_end(s, i);
        let rest = edges_from(s, e + 1);
        match line_edge(s.subrange(i, e)) {
            Some(p) => seq![p] + rest,
            None => rest,
        }
    } else {
        seq![]
    }
}

/// The edges that an edge-list text names, one per line that has two words
/// before its comment, in the order of the lines.
pub open spec fn edge_list(s: Seq<char>) -> Seq<Edge> {
    edges_from(s, 0)
}

/// Law: a comment appended to a line changes nothing; whatever follows a
/// `#` is ignored.
pub proof fn law_comment_ignored(l: Seq<char>, comment: Seq<char>)
    ensures
        line_edge(l + seq!['#'] + comment) == line_edge(l),
{
    let t = l + seq!['#'] + comment;
    let j = find_char(l, 0, '#');
    lemma_first_from(char_in(l, '#'), 0, l.len() as int);
    assert forall|k: int| 0 <= k < j implies !#[trigger] char_in(t, '#')(k) by {
        assert(t[k] == l[k]);
        assert(!char_in(l, '#')(k));
    }
    if j < l.len() {
        assert(t[j] == l[j]);
    } else {
        assert(t[j] == '#');
    }
    lemma_first_from_unique(char_in(t, '#'), 0, t.len() as int, j);
    assert(before_hash(t) =~= before_hash(l));
}


/// Law: a line made of two names joined by one space names the edge
/// between them, the names kept whole.
pub proof fn law_two_names_make_an_edge(u: Seq<char>, v: Seq<char>)
    requires
        u.len() > 0,
        v.len() > 0,
        forall|k: int| 0 <= k < u.len() ==> !is_ws(#[trigger] u[k]) && u[k] != '#',
        forall|k: int| 0 <= k < v.len() ==> !is_ws(#[trigger] v[k]) && v[k] != '#',
    ensures
        line_edge(u + seq![' '] + v) == Some((u, v)),
{
    let l = u + seq![' '] + v;
    let m = u.len() as int;
    assert(is_ws(' '));
    assert forall|k: int| 0 <= k < l.len() implies !#[trigger] char_in(l, '#')(k) by {
        if k < m {
            assert(l[k] == u[k]);
        } else if k > m {
            assert(l[k] == v[k - m - 1]);
        }
    }
    lemma_first_from_unique(char_in(l, '#'), 0, l.len() as int, l.len() as int);
    assert(before_hash(l) =~= l);
    assert(l[0] == u[0]);
    lemma_first_from_unique(non_ws_in(l), 0, l.len() as int, 0);
    assert forall|k: int| 0 <= k < m implies !#[trigger] ws_in(l)(k) by {
        assert(l[k] == u[k]);
    }
    lemma_first_from_unique(ws_in(l), 0, l.len() as int, m);
    assert(l[m + 1] == v[0]);
    lemma_first_from_unique(non_ws_in(l), m, l.len() as int, m + 1);
    assert forall|k: int| m + 1 <= k < l.len() implies !#[trigger] ws_in(l)(k) by {
        assert(l[k] == v[k - m - 1]);
    }
    lemma_first_from_unique(ws_in(l), m + 1, l.len() as int, l.len() as int);
    assert(l.subrange(0, m) =~= u);
    assert(l.subrange(m + 1, l.len() as int) =~= v);
}

/// Trailing whitespace moves no word start inside `c`, and past the last
/// word of `c` finds none.
proof fn lemma_skip_ws_append(c: Seq<char>, w: Seq<char>, i: int)
    requires
        0 <= i <= c.len(),
        forall|k: int| 0 <= k < w.len() ==> is_ws(#[trigger] w[k]),
    ensures
        skip_ws(c + w, i) == if skip_ws(c, i) < c.len() {
            skip_ws(c, i)
        } else {
            (c.len() + w.len()) as int
        },
{
    let cw = c + w;
    let j = skip_ws(c, i);
    lemma_first_from(non_ws_in(c), i, c.len() as int);
    if j < c.len() {
        assert forall|k: int| i <= k < j implies !#[trigger] non_ws_in(cw)(k) by {
            assert(!non_ws_in(c)(k));
        }
        assert(cw[j] == c[j]);
        lemma_first_from_unique(non_ws_in(cw), i, cw.len() as int, j);
    } else {
        assert forall|k: int| i <= k < cw.len() implies !#[trigger] non_ws_in(cw)(k) by {
            if k < c.len() {
                assert(!non_ws_in(c)(k));
            } else {
                assert(cw[k] == w[k - c.len()]);
            }
        }
        lemma_first_from_unique(non_ws_in(cw), i, cw.len() as int, cw.len() as int);
    }
}

/// Trailing whitespace ends a word where `c` ends it.
proof fn lemma_word_end_append(c: Seq<char>, w: Seq<char>, i: int)
    requires
        0 <= i <= c.len(),
        forall|k: int| 0 <= k < w.len() ==> is_ws(#[trigger] w[k]),
    ensures
        word_end(c + w, i) == word_end(c, i),
{
    let cw = c + w;
    let e = word_end(c, i);
    lemma_first_from(ws_in(c), i, c.len() as int);
    assert forall|k: int| i <= k < e implies !#[trigger] ws_in(cw)(k) by {
        assert(!ws_in(c)(k));
    }
    if e < c.len() {
        assert(cw[e] == c[e]);
    } else if w.len() > 0 {
        assert(cw[e] == w[0]);
    }
    lemma_first_from_unique(ws_in(cw), i, cw.len() as int, e);
}

/// Trailing whitespace changes no word.
proof fn lemma_first_two_words_append(c: Seq<char>, w: Seq<char>)
    requires
        forall|k: int| 0 <= k < w.len() ==> is_ws(#[trigger] w[k]),
    ensures
        first_two_words(c + w) == first_two_words(c),
{
    let cw = c + w;
    let a = skip_ws(c, 0);
    lemma_first_from(non_ws_in(c), 0, c.len() as int);
    lemma_skip_ws_append(c, w, 0);
    if a < c.len() {
        let b = word_end(c, a);
        lemma_first_from(ws_in(c), a, c.len() as int);
        lemma_word_end_append(c, w, a);
        let d = skip_ws(c, b);
        lemma_first_from(non_ws_in(c), b, c.len() as int);
        lemma_skip_ws_append(c, w, b);
        if d < c.len() {
            let e = word_end(c, d);
            lemma_first_from(ws_in(c), d, c.len() as int);
            lemma_word_end_append(c, w, d);
            assert(cw.subrange(a, b) =~= c.subrange(a, b));
            assert(cw.subrange(d, e) =~= c.subrange(d, e));
        }
    } else {
        let m = cw.len() as int;
        lemma_first_from(ws_in(cw), m, m);
        lemma_first_from(non_ws_in(cw), m, m);
        lemma_first_from(ws_in(c), a, c.len() as int);
        lemma_first_from(non_ws_in(c), a, c.len() as int);
    }
}

/// Law: whitespace at the end of a line, such as the `\r` of a `\r\n` line
/// break, changes nothing.
pub proof fn law_trailing_whitespace_ignored(l: Seq<char>, w: Seq<char>)
    requires
        forall|k: int| 0 <= k < w.len() ==> is_ws(#[trigger] w[k]),
    ensures
        line_edge(l + w) == line_edge(l),
{
    let lw = l + w;
    let j = find_char(l, 0, '#');
    lemma_first_from(char_in(l, '#'), 0, l.len() as int);
    if j < l.len() {
        assert forall|k: int| 0 <= k < j implies !#[trigger] char_in(lw, '#')(k) by {
            assert(!char_in(l, '#')(k));
        }
        assert(lw[j] == l[j]);
        lemma_first_from_unique(char_in(lw, '#'), 0, lw.len() as int, j);
        assert(before_hash(lw) =~= before_hash(l));
    } else {
        assert forall|k: int| 0 <= k < lw.len() implies !#[trigger] char_in(lw, '#')(k) by {
            if k < l.len() {
                assert(!char_in(l, '#')(k));
            } else {
                assert(lw[k] == w[k - l.len()]);
                assert(is_ws(w[k - l.len()]));
            }
        }
        lemma_first_from_unique(char_in(lw, '#'), 0, lw.len() as int, lw.len() as int);
        assert(before_hash(lw) =~= lw);
        assert(before_hash(l) =~= l);
        lemma_first_two_words_append(l, w);
    }
}

/// Searching for `c` in `a + b` from inside `b` finds it where searching `b`
/// does, shifted by `a.len()`.
pub proof fn lemma_find_char_shift(a: Seq<char>, b: Seq<char>, j: int, c: char)
    requires
        0 <= j <= b.len(),
    ensures
        find_char(a + b, a.len() + j, c) == a.len() + find_char(b, j, c),
    decreases b.len() - j,
{
    if j < b.len() {
        assert((a + b)[a.len() + j] == b[j]);
        lemma_find_char_shift(a, b, j + 1, c);
    }
}

/// The lines of `a + b` from inside `b` on name the edges that the lines of
/// `b` name from there on.
pub proof fn lemma_edges_shift(a: Seq<char>, b: Seq<char>, j: int)
    requires
        0 <= j,
    ensures
        edges_from(a + b, a.len() + j) == edges_from(b, j),
    decreases b.len() + 1 - j,
{
    if j < b.len() {
        let s = a + b;
        lemma_find_char_shift(a, b, j, '\n');
        let e = line_end(b, j);
        lemma_first_from(char_in(b, '\n'), j, b.len() as int);
        assert(s.subrange(a.len() + j, a.len() + e) =~= b.subrange(j, e));
        lemma_edges_shift(a, b, e + 1);
    }
}

/// Whole lines followed by more text name their own edges, then the text's.
pub proof fn lemma_edges_concat(s: Seq<char>, t: Seq<char>, i: int)
    requires
        s.len() == 0 || s.last() == '\n',
        0 <= i <= s.len(),
    ensures
        edges_from(s + t, i) == edges_from(s, i) + edges_from(t, 0),
    decreases s.len() - i,
{
    let st = s + t;
    if i == s.len() {
        lemma_edges_shift(s, t, 0);
        assert(edges_from(s, i) + edges_from(t, 0) =~= edges_from(t, 0));
    } else {
        let e = line_end(s, i);
        lemma_first_from(char_in(s, '\n'), i, s.len() as int);
        assert(char_in(s, '\n')(s.len() - 1));
        assert(e < s.len());
        assert forall|k: int| i <= k < e implies !#[trigger] char_in(st, '\n')(k) by {
            assert(!char_in(s, '\n')(k));
        }
        lemma_first_from_unique(char_in(st, '\n'), i, st.len() as int, e);
        assert(st.subrange(i, e) =~= s.subrange(i, e));
        lemma_edges_concat(s, t, e + 1);
        let r = edges_from(s, e + 1);
        let u = edges_from(t, 0);
        match line_edge(s.subrange(i, e)) {
            Some(p) => {
                assert(seq![p] + (r + u) =~= (seq![p] + r) + u);
            },
            None => {},
        }
    }
}

/// Law: the edges of a text are those of its lines in order. For a text made
/// of some whole lines, one more line, and the rest from a line break on,
/// they are the edges of the whole lines, then the edge of that line if it
/// names one, then the edges of the rest.
pub proof fn law_edges_of_lines(pre: Seq<char>, l: Seq<char>, post: Seq<char>)
    requires
        pre.len() == 0 || pre.last() == '\n',
        !l.contains('\n'),
        post.len() == 0 || post[0] == '\n',
    ensures
        edge_list(pre + l + post) == edge_list(pre) + match line_edge(l) {
            Some(p) => seq![p],
            None => Seq::<Edge>::empty(),
        } + edges_from(post, 1),
{
    let x = l + post;
    assert(pre + l + post =~= pre + x);
    lemma_edges_concat(pre, x, 0);
    assert forall|k: int| 0 <= k < l.len() implies !#[trigger] char_in(x, '\n')(k) by {
        assert(x[k] == l[k]);
        if l[k] == '\n' {
            assert(l.contains('\n'));
        }
    }
    if post.len() > 0 {
        assert(x[l.len() as int] == '\n');
    }
    lemma_first_from_unique(char_in(x, '\n'), 0, x.len() as int, l.len() as int);
    lemma_edges_shift(l, post, 1);
    assert(x.subrange(0, l.len() as int) =~= l);
    if x.len() == 0 {
        assert(l =~= Seq::<char>::empty());
        assert(line_edge(l) is None) by {
            lemma_first_from(non_ws_in(before_hash(l)), 0, 0);
        }
    }
    let o = match line_edge(l) {
        Some(p) => seq![p],
        None => Seq::<Edge>::empty(),
    };
    assert(edge_list(pre) + edges_from(x, 0) =~= edge_list(pre) + o + edges_from(post, 1));
}

/// Law: replacing one line by another that names the same edge changes no
/// edge of the text. Lines are what lies between line breaks.
pub proof fn law_line_replaced(pre: Seq<char>, l1: Seq<char>, l2: Seq<char>, post: Seq<char>)
    requires
        pre.len() == 0 || pre.last() == '\n',
        !l1.contains('\n'),
        !l2.contains('\n'),
        post.len() == 0 || post[0] == '\n',
        line_edge(l1) == line_edge(l2),
    ensures
        edge_list(pre + l1 + post) == edge_list(pre + l2 + post),
{
    law_edges_of_lines(pre, l1, post);
    law_edges_of_lines(pre, l2, post);
}

/// Law: a `#` comment appended to any line of a text changes no edge.
pub proof fn law_comment_on_a_line(pre: Seq<char>, l: Seq<char>, comment: Seq<char>, post: Seq<char>)
    requires
        pre.len() == 0 || pre.last() == '\n',
        !l.contains('\n'),
        !comment.contains('\n'),
        post.len() == 0 || post[0] == '\n',
    ensures
        edge_list(pre + (l + seq!['#'] + comment) + post) == edge_list(pre + l + post),
{
    let l2 = l + seq!['#'] + comment;
    assert(!l2.contains('\n')) by {
        if l2.contains('\n') {
            let k = choose|k: int| 0 <= k < l2.len() && l2[k] == '\n';
            if k < l.len() {
                assert(l[k] == '\n');
            } else if k > l.len() {
                assert(comment[k - l.len() - 1] == '\n');
            }
        }
    }
    law_comment_ignored(l, comment);
    law_line_replaced(pre, l2, l, post);
}

} // verus!
