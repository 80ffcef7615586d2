//! Character-level text scanning: whitespace, words and line ends.

use vstd::prelude::*;

verus! {

/// The least index `j` with `i <= j < end` at which `p` holds, or `end` where
/// none does.
pub open spec fn first_from(p: spec_fn(int) -> bool, i: int, end: int) -> int
    decreases end - i,
{
    if i < end {
        if p(i) {
            i
        } else {
            first_from(p, i + 1, end)
        }
    } else {
        end
    }
}

/// `first_from` lies in `[i, end]`, `p` holds there unless it is `end`, and
/// `p` holds nowhere before it.
pub proof fn lemma_first_from(p: spec_fn(int) -> bool, i: int, end: int)
    requires
        i <= end,
    ensures
        i <= first_from(p, i, end) <= end,
        first_from(p, i, end) < end ==> p(first_from(p, i, end)),
        forall|j: int| i <= j < first_from(p, i, end) ==> !#[trigger] p(j),
    decreases end - i,
{
    if i < end && !p(i) {
        lemma_first_from(p, i + 1, end);
    }
}

/// A `j` in `[i, end]` at which `p` holds (or which is `end`) and before
/// which `p` holds nowhere from `i` on is `first_from(p, i, end)`.
pub proof fn lemma_first_from_unique(p: spec_fn(int) -> bool, i: int, end: int, j: int)
    requires
        i <= j <= end,
        j < end ==> p(j),
        forall|k: int| i <= k < j ==> !#[trigger] p(k),
    ensures
        first_from(p, i, end) == j,
    decreases end - i,
{
    if i < j {
        lemma_first_from_unique(p, i + 1, end, j);
    }
}

/// Predicates that agree on `[i, end)` are first found at the same index.
pub proof fn lemma_first_from_ext(p: spec_fn(int) -> bool, q: spec_fn(int) -> bool, i: int, end: int)
    requires
        forall|j: int| i <= j < end ==> #[trigger] p(j) == q(j),
    ensures
        first_from(p, i, end) == first_from(q, i, end),
    decreases end - i,
{
    if i < end {
        lemma_first_from_ext(p, q, i + 1, end);
    }
}

/// Unicode whitespace: the characters with the `White_Space` property, the
/// ones `char::is_whitespace`, `str::trim` and `str::split_whitespace` treat
/// as whitespace.
pub open spec fn is_ws(c: char) -> bool {
    let u = c as u32;
    ||| 0x9 <= u <= 0xd
    ||| u == 0x20
    ||| u == 0x85
    ||| u == 0xa0
    ||| u == 0x1680
    ||| 0x2000 <= u <= 0x200a
    ||| u == 0x2028
    ||| u == 0x2029
    ||| u == 0x202f
    ||| u == 0x205f
    ||| u == 0x3000
}

/// Law: whitespace is exactly the Unicode `White_Space` list: U+0009 to
/// U+000D, U+0020, U+0085, U+00A0, U+1680, U+2000 to U+200A, U+2028, U+2029,
/// U+202F, U+205F and U+3000. In particular no visible ASCII character, such
/// as `_`, `-` or `.`, is whitespace.
pub proof fn law_whitespace_is_white_space(c: char)
    ensures
        is_ws(c) <==> (c == '\t' || c == '\n' || c == '\u{b}' || c == '\u{c}' || c == '\r'
            || c == ' ' || c == '\u{85}' || c == '\u{a0}' || c == '\u{1680}' || ('\u{2000}' <= c
            && c <= '\u{200a}') || c == '\u{2028}' || c == '\u{2029}' || c == '\u{202f}' || c
            == '\u{205f}' || c == '\u{3000}'),
        (0x21 <= (c as u32) <= 0x7e) ==> !is_ws(c),
{
}

/// Whether `c` is Unicode whitespace.
pub fn is_whitespace(c: char) -> (b: bool)
    ensures
        b == is_ws(c),
{
    let u = c as u32;
    (0x9 <= u && u <= 0xd) || u == 0x20 || u == 0x85 || u == 0xa0 || u == 0x1680 || (0x2000
        <= u && u <= 0x200a) || u == 0x2028 || u == 0x2029 || u == 0x202f || u == 0x205f || u
        == 0x3000
}


/// At index `j` of `s` stands a character that is not whitespace.
pub open spec fn non_ws_in(s: Seq<char>) -> spec_fn(int) -> bool {
    |j: int| !is_ws(s[j])
}

/// At index `j` of `s` stands whitespace.
pub open spec fn ws_in(s: Seq<char>) -> spec_fn(int) -> bool {
    |j: int| is_ws(s[j])
}

/// At index `j` of `s` stands `c`.
pub open spec fn char_in(s: Seq<char>, c: char) -> spec_fn(int) -> bool {
    |j: int| s[j] == c
}

/// The first index from `i` on that holds no whitespace, or `s.len()`.
pub open spec fn skip_ws(s: Seq<char>, i: int) -> int {
    first_from(non_ws_in(s), i, s.len() as int)
}

/// The end of the run of non-whitespace that starts at `i`.
pub open spec fn word_end(s: Seq<char>, i: int) -> int {
    first_from(ws_in(s), i, s.len() as int)
}

/// The first index from `i` on that holds `c`, or `s.len()`.
pub open spec fn find_char(s: Seq<char>, i: int, c: char) -> int {
    first_from(char_in(s, c), i, s.len() as int)
}

/// The first two words of `s`, where a word is a maximal run of characters
/// that are not whitespace; `None` where `s` has fewer than two.
pub open spec fn first_two_words(s: Seq<char>) -> Option<(Seq<char>, Seq<char>)> {
    let a = skip_ws(s, 0);
    let b = word_end(s, a);
    let d = skip_ws(s, b);
    let e = word_end(s, d);
    if d < s.len() {
        Some((s.subrange(a, b), s.subrange(d, e)))
    } else {
        None
    }
}

/// The view of an optional pair of strings.
pub open spec fn pair_view(r: Option<(String, String)>) -> Option<(Seq<char>, Seq<char>)> {
    match r {
        Some((a, b)) => Some((a@, b@)),
        None => None,
    }
}

/// The index of the first character at or after `i` that is not whitespace.
pub fn skip_whitespace(s: &[char], i: usize) -> (j: usize)
    requires
        i <= s@.len(),
    ensures
        j == skip_ws(s@, i as int),
{
    let mut j = i;
    while j < s.len() && is_whitespace(s[j])
        invariant
            i <= j <= s@.len(),
            first_from(non_ws_in(s@), j as int, s@.len() as int) == skip_ws(s@, i as int),
        decreases s@.len() - j,
    {
        j = j + 1;
    }
    j
}

/// The end of the run of non-whitespace characters that starts at `i`.
pub fn word_end_at(s: &[char], i: usize) -> (j: usize)
    requires
        i <= s@.len(),
    ensures
        j == word_end(s@, i as int),
{
    let mut j = i;
    while j < s.len() && !is_whitespace(s[j])
        invariant
            i <= j <= s@.len(),
            first_from(ws_in(s@), j as int, s@.len() as int) == word_end(s@, i as int),
        decreases s@.len() - j,
    {
        j = j + 1;
    }
    j
}

/// The index of the first `c` at or after `i`, or `s.len()`.
pub fn find_char_at(s: &[char], i: usize, c: char) -> (j: usize)
    requires
        i <= s@.len(),
    ensures
        j == find_char(s@, i as int, c),
{
    let mut j = i;
    while j < s.len() && s[j] != c
        invariant
            i <= j <= s@.len(),
            first_from(char_in(s@, c), j as int, s@.len() as int) == find_char(s@, i as int, c),
        decreases s@.len() - j,
    {
        j = j + 1;
    }
    j
}

/// Appends `c` to `s` by `String::push`, which adds the character at the end.
#[verifier::external_body]
fn push_char(s: &mut String, c: char)
    ensures
        final(s)@ == old(s)@.push(c),
{
    s.push(c);
}

/// What Rust's `Debug` formatting makes of a string: the text in double
/// quotes, with quotes, backslashes and control or non-printable characters
/// escaped.
pub uninterp spec fn debug_text(s: Seq<char>) -> Seq<char>;

/// `s` as `<str as Debug>::fmt` writes it, by `format!("{s:?}")`. Its
/// contract claims only that the result is a function of `s`; which
/// characters it escapes, and how, is left to `debug_text`.
#[verifier::external_body]
pub(crate) fn debug_quote(s: &str) -> (r: String)
    ensures
        r@ == debug_text(s@),
{
    format!("{s:?}")
}

/// `a`, `b` and `c` one after the other.
pub fn concat3(a: &str, b: &str, c: &str) -> (r: String)
    ensures
        r@ == a@ + b@ + c@,
{
    let mut r = a.to_owned();
    r.append(b);
    r.append(c);
    r
}

/// The string made of the characters of `s`.
pub fn string_of(s: &[char]) -> (r: String)
    ensures
        r@ == s@,
{
    let mut r = String::new();
    let mut i: usize = 0;
    while i < s.len()
        invariant
            i <= s@.len(),
            r@ == s@.subrange(0, i as int),
        decreases s@.len() - i,
    {
        push_char(&mut r, s[i]);
        assert(s@.subrange(0, i + 1) == s@.subrange(0, i as int).push(s@[i as int]));
        i = i + 1;
    }
    assert(s@.subrange(0, s@.len() as int) == s@);
    r
}

/// The characters of `s`, in order.
pub fn chars_of(s: &str) -> (v: Vec<char>)
    ensures
        v@ == s@,
{
    let mut v: Vec<char> = Vec::new();
    for c in it: s.chars()
        invariant
            it.seq() == s@,
            v@ == it.seq().take(it.index() as int),
    {
        v.push(c);
    }
    v
}

/// The first two words of `s`, as `first_two_words` defines them.
pub fn two_words(s: &[char]) -> (r: Option<(String, String)>)
    ensures
        pair_view(r) == first_two_words(s@),
{
    let a = skip_whitespace(s, 0);
    proof { lemma_first_from(non_ws_in(s@), 0, s@.len() as int); }
    let b = word_end_at(s, a);
    proof { lemma_first_from(ws_in(s@), a as int, s@.len() as int); }
    let d = skip_whitespace(s, b);
    proof { lemma_first_from(non_ws_in(s@), b as int, s@.len() as int); }
    let e = word_end_at(s, d);
    proof { lemma_first_from(ws_in(s@), d as int, s@.len() as int); }
    if d < s.len() {
        let u = string_of(&s[a..b]);
        let v = string_of(&s[d..e]);
        Some((u, v))
    } else {
        None
    }
}

} // verus!
