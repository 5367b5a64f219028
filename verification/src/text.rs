//! Character-level text primitives shared by every module.
//!
//! Text is modelled as `Seq<char>`, the view of `str` and `String`. The
//! executable helpers here convert between strings and character vectors and
//! implement trimming, truncation and comparison with exact contracts.

use vstd::prelude::*;

verus! {

/// Unicode `White_Space` property, the set `char::is_whitespace` tests.
pub open spec fn is_ws(c: char) -> bool {
    let u = c as u32;
    ||| 0x9 <= u <= 0xD
    ||| u == 0x20
    ||| u == 0x85
    ||| u == 0xA0
    ||| u == 0x1680
    ||| 0x2000 <= u <= 0x200A
    ||| u == 0x2028
    ||| u == 0x2029
    ||| u == 0x202F
    ||| u == 0x205F
    ||| u == 0x3000
}

/// Number of leading whitespace characters.
pub open spec fn ws_prefix_len(s: Seq<char>) -> nat
    decreases s.len(),
{
    if s.len() == 0 {
        0
    } else if is_ws(s[0]) {
        1 + ws_prefix_len(s.drop_first())
    } else {
        0
    }
}

/// Number of trailing whitespace characters.
pub open spec fn ws_suffix_len(s: Seq<char>) -> nat
    decreases s.len(),
{
    if s.len() == 0 {
        0
    } else if is_ws(s.last()) {
        1 + ws_suffix_len(s.drop_last())
    } else {
        0
    }
}

pub open spec fn trim_start(s: Seq<char>) -> Seq<char> {
    s.skip(ws_prefix_len(s) as int)
}

pub open spec fn trim_end(s: Seq<char>) -> Seq<char> {
    s.take(s.len() - ws_suffix_len(s))
}

/// `str::trim`: both ends stripped of Unicode whitespace.
pub open spec fn trim(s: Seq<char>) -> Seq<char> {
    trim_end(trim_start(s))
}

/// `str::trim().is_empty()`: the text holds only whitespace.
pub open spec fn is_blank(s: Seq<char>) -> bool {
    forall|i: int| 0 <= i < s.len() ==> is_ws(#[trigger] s[i])
}

pub open spec fn is_ascii_lower(c: char) -> bool {
    'a' <= c <= 'z'
}

pub open spec fn is_ascii_upper(c: char) -> bool {
    'A' <= c <= 'Z'
}

pub open spec fn is_ascii_digit(c: char) -> bool {
    '0' <= c <= '9'
}

pub open spec fn is_ascii_alpha(c: char) -> bool {
    is_ascii_lower(c) || is_ascii_upper(c)
}

pub open spec fn is_ascii_alnum(c: char) -> bool {
    is_ascii_alpha(c) || is_ascii_digit(c)
}

pub open spec fn is_ascii(c: char) -> bool {
    (c as u32) < 128
}

/// `char::to_ascii_lowercase`.
pub open spec fn ascii_lower(c: char) -> char {
    if is_ascii_upper(c) {
        ((c as u32) + 32) as char
    } else {
        c
    }
}

/// `str::to_ascii_lowercase` on the character view.
pub open spec fn ascii_lower_seq(s: Seq<char>) -> Seq<char> {
    Seq::new(s.len(), |i: int| ascii_lower(s[i]))
}

/// Character-count truncation with a `...` marker, as used for quotes.
pub open spec fn truncated_text(s: Seq<char>, max_chars: nat) -> Seq<char> {
    if s.len() <= max_chars {
        s
    } else {
        s.take(max_chars as int) + seq!['.', '.', '.']
    }
}

/// Truncation that keeps the result within `max_chars` characters,
/// marker included.
pub open spec fn budget_truncated(s: Seq<char>, max_chars: nat) -> Seq<char> {
    if s.len() <= max_chars {
        s
    } else if max_chars <= 3 {
        s.take(max_chars as int)
    } else {
        s.take(max_chars - 3) + seq!['.', '.', '.']
    }
}

/// Appends one character to a string (`String::push`).
#[verifier::external_body]
pub fn push_char(s: &mut String, c: char)
    ensures
        final(s)@ == old(s)@.push(c),
{
    s.push(c);
}

/// The characters of a string slice.
pub fn chars_of(s: &str) -> (v: Vec<char>)
    ensures
        v@ == s@,
{
    let mut v: Vec<char> = Vec::new();
    for c in it: s.chars()
        invariant
            v@ == it.seq().take(it.index() as int),
            it.seq() == s@,
    {
        v.push(c);
    }
    v
}

/// A string made of the given characters.
pub fn string_of(v: &[char]) -> (s: String)
    ensures
        s@ == v@,
{
    let mut s = String::new();
    let mut i: usize = 0;
    while i < v.len()
        invariant
            i <= v@.len(),
            s@ == v@.take(i as int),
        decreases v@.len() - i,
    {
        push_char(&mut s, v[i]);
        assert(v@.take(i + 1) == v@.take(i as int).push(v@[i as int]));
        i = i + 1;
    }
    assert(v@.take(v@.len() as int) == v@);
    s
}

/// Appends the characters of `v` to `s`.
pub fn push_chars(s: &mut String, v: &[char])
    ensures
        final(s)@ == old(s)@ + v@,
{
    let mut i: usize = 0;
    while i < v.len()
        invariant
            i <= v@.len(),
            s@ == old(s)@ + v@.take(i as int),
        decreases v@.len() - i,
    {
        push_char(s, v[i]);
        assert(v@.take(i + 1) == v@.take(i as int).push(v@[i as int]));
        i = i + 1;
    }
    assert(v@.take(v@.len() as int) == v@);
}

/// A copy of `v[start..end]`.
pub fn slice_chars(v: &[char], start: usize, end: usize) -> (r: Vec<char>)
    requires
        start <= end <= v@.len(),
    ensures
        r@ == v@.subrange(start as int, end as int),
{
    let mut r: Vec<char> = Vec::new();
    let mut i = start;
    while i < end
        invariant
            start <= i <= end <= v@.len(),
            r@ == v@.subrange(start as int, i as int),
        decreases end - i,
    {
        r.push(v[i]);
        assert(v@.subrange(start as int, i + 1) == v@.subrange(start as int, i as int).push(
            v@[i as int],
        ));
        i = i + 1;
    }
    r
}

/// Character-wise equality of two character slices.
pub fn chars_equal(a: &[char], b: &[char]) -> (r: bool)
    ensures
        r == (a@ == b@),
{
    if a.len() != b.len() {
        return false;
    }
    let mut i: usize = 0;
    while i < a.len()
        invariant
            i <= a@.len(),
            a@.len() == b@.len(),
            forall|j: int| 0 <= j < i ==> a@[j] == b@[j],
        decreases a@.len() - i,
    {
        if a[i] != b[i] {
            return false;
        }
        i = i + 1;
    }
    assert(a@ =~= b@);
    true
}

/// Character-wise equality of a character slice and a string.
pub fn chars_equal_str(a: &[char], b: &str) -> (r: bool)
    ensures
        r == (a@ == b@),
{
    let bv = chars_of(b);
    chars_equal(a, bv.as_slice())
}

/// `true` when `prefix` is a prefix of `v`.
pub fn starts_with(v: &[char], prefix: &[char]) -> (r: bool)
    ensures
        r == (prefix@.len() <= v@.len() && v@.take(prefix@.len() as int) == prefix@),
{
    if prefix.len() > v.len() {
        return false;
    }
    let mut i: usize = 0;
    while i < prefix.len()
        invariant
            i <= prefix@.len() <= v@.len(),
            forall|j: int| 0 <= j < i ==> v@[j] == prefix@[j],
        decreases prefix@.len() - i,
    {
        if v[i] != prefix[i] {
            assert(v@.take(prefix@.len() as int)[i as int] != prefix@[i as int]);
            return false;
        }
        i = i + 1;
    }
    assert(v@.take(prefix@.len() as int) =~= prefix@);
    true
}

/// `true` when `suffix` is a suffix of `v`.
pub fn ends_with(v: &[char], suffix: &[char]) -> (r: bool)
    ensures
        r == (suffix@.len() <= v@.len() && v@.skip(v@.len() - suffix@.len()) == suffix@),
{
    if suffix.len() > v.len() {
        return false;
    }
    let off = v.len() - suffix.len();
    let mut i: usize = 0;
    while i < suffix.len()
        invariant
            i <= suffix@.len() <= v@.len(),
            off + suffix@.len() == v@.len(),
            v@.len() <= usize::MAX,
            forall|j: int| 0 <= j < i ==> v@[off + j] == suffix@[j],
        decreases suffix@.len() - i,
    {
        if v[off + i] != suffix[i] {
            assert(v@.skip(off as int)[i as int] != suffix@[i as int]);
            return false;
        }
        i = i + 1;
    }
    assert(v@.skip(off as int) =~= suffix@);
    true
}

/// `char::is_whitespace`.
pub fn is_whitespace(c: char) -> (r: bool)
    ensures
        r == is_ws(c),
{
    let u = c as u32;
    (0x9 <= u && u <= 0xD) || u == 0x20 || u == 0x85 || u == 0xA0 || u == 0x1680 || (0x2000 <= u
        && u <= 0x200A) || u == 0x2028 || u == 0x2029 || u == 0x202F || u == 0x205F || u == 0x3000
}

/// `char::to_ascii_lowercase`.
pub fn to_ascii_lower(c: char) -> (r: char)
    ensures
        r == ascii_lower(c),
{
    if 'A' <= c && c <= 'Z' {
        let u = (c as u32) + 32;
        assert(0x61 <= u <= 0x7a);
        let r = char_from_ascii(u);
        r
    } else {
        c
    }
}

/// The character with an ASCII code point.
fn char_from_ascii(u: u32) -> (r: char)
    requires
        u < 128,
    ensures
        r == u as char,
{
    (u as u8) as char
}

/// `str::to_ascii_lowercase` on characters.
pub fn ascii_lowercase(v: &[char]) -> (r: Vec<char>)
    ensures
        r@ == ascii_lower_seq(v@),
{
    let mut r: Vec<char> = Vec::new();
    let mut i: usize = 0;
    while i < v.len()
        invariant
            i <= v@.len(),
            r@ =~= ascii_lower_seq(v@.take(i as int)),
        decreases v@.len() - i,
    {
        r.push(to_ascii_lower(v[i]));
        i = i + 1;
        assert(r@ =~= ascii_lower_seq(v@.take(i as int)));
    }
    assert(v@.take(v@.len() as int) == v@);
    r
}

pub proof fn lemma_ws_prefix_len(s: Seq<char>, k: int)
    requires
        0 <= k <= s.len(),
        forall|j: int| 0 <= j < k ==> is_ws(#[trigger] s[j]),
        k == s.len() || !is_ws(s[k]),
    ensures
        ws_prefix_len(s) == k,
    decreases k,
{
    if k > 0 {
        lemma_ws_prefix_len(s.drop_first(), k - 1);
    }
}

pub proof fn lemma_ws_suffix_len(s: Seq<char>, k: int)
    requires
        0 <= k <= s.len(),
        forall|j: int| s.len() - k <= j < s.len() ==> is_ws(#[trigger] s[j]),
        k == s.len() || !is_ws(s[s.len() - k - 1]),
    ensures
        ws_suffix_len(s) == k,
    decreases k,
{
    if k > 0 {
        lemma_ws_suffix_len(s.drop_last(), k - 1);
    }
}

/// Bounds of `str::trim`: the text is `v[start..end]`.
pub fn trim_bounds(v: &[char]) -> (r: (usize, usize))
    ensures
        r.0 <= r.1 <= v@.len(),
        v@.subrange(r.0 as int, r.1 as int) == trim(v@),
        r.0 == ws_prefix_len(v@),
{
    let mut start: usize = 0;
    while start < v.len() && is_whitespace(v[start])
        invariant
            start <= v@.len(),
            forall|j: int| 0 <= j < start ==> is_ws(#[trigger] v@[j]),
        decreases v@.len() - start,
    {
        start = start + 1;
    }
    proof {
        lemma_ws_prefix_len(v@, start as int);
    }
    let mut end: usize = v.len();
    while end > start && is_whitespace(v[end - 1])
        invariant
            start <= end <= v@.len(),
            forall|j: int| end <= j < v@.len() ==> is_ws(#[trigger] v@[j]),
        decreases end,
    {
        end = end - 1;
    }
    proof {
        let t = v@.skip(start as int);
        let k = v@.len() - end;
        assert forall|j: int| t.len() - k <= j < t.len() implies is_ws(#[trigger] t[j]) by {
            assert(t[j] == v@[start + j]);
        }
        if end > start {
            assert(t[t.len() - k - 1] == v@[end - 1]);
        }
        lemma_ws_suffix_len(t, k);
        assert(v@.subrange(start as int, end as int) =~= t.take(t.len() - k));
    }
    (start, end)
}

/// `str::trim` on characters.
pub fn trim_chars(v: &[char]) -> (r: Vec<char>)
    ensures
        r@ == trim(v@),
{
    let (a, b) = trim_bounds(v);
    slice_chars(v, a, b)
}

/// `str::trim().is_empty()` on characters.
pub fn blank(v: &[char]) -> (r: bool)
    ensures
        r == is_blank(v@),
{
    let mut i: usize = 0;
    while i < v.len()
        invariant
            i <= v@.len(),
            forall|j: int| 0 <= j < i ==> is_ws(#[trigger] v@[j]),
        decreases v@.len() - i,
    {
        if !is_whitespace(v[i]) {
            return false;
        }
        i = i + 1;
    }
    true
}

/// Truncates `text` to `max_chars` characters and marks the cut with `...`.
pub fn truncate_text(text: &str, max_chars: usize) -> (r: String)
    ensures
        r@ == truncated_text(text@, max_chars as nat),
{
    let v = chars_of(text);
    if v.len() <= max_chars {
        return string_of(v.as_slice());
    }
    let mut r = string_of(slice_chars(v.as_slice(), 0, max_chars).as_slice());
    r.append("...");
    proof {
        reveal_strlit("...");
        assert("..."@ =~= seq!['.', '.', '.']);
        assert(v@.subrange(0, max_chars as int) == v@.take(max_chars as int));
    }
    r
}

/// Truncates `text` so that the result, marker included, holds at most
/// `max_chars` characters.
pub fn truncate_to_budget(text: &str, max_chars: usize) -> (r: String)
    ensures
        r@ == budget_truncated(text@, max_chars as nat),
        r@.len() <= max_chars || r@ == text@,
{
    let v = chars_of(text);
    if v.len() <= max_chars {
        return string_of(v.as_slice());
    }
    if max_chars <= 3 {
        let r = string_of(slice_chars(v.as_slice(), 0, max_chars).as_slice());
        assert(v@.subrange(0, max_chars as int) == v@.take(max_chars as int));
        return r;
    }
    let mut r = string_of(slice_chars(v.as_slice(), 0, max_chars - 3).as_slice());
    r.append("...");
    proof {
        reveal_strlit("...");
        assert("..."@ =~= seq!['.', '.', '.']);
        assert(v@.subrange(0, max_chars - 3) == v@.take(max_chars - 3));
    }
    r
}

/// The character views of a vector of character vectors.
pub open spec fn views(v: Seq<Vec<char>>) -> Seq<Seq<char>> {
    Seq::new(v.len(), |i: int| v[i]@)
}

/// The character views of a vector of strings.
pub open spec fn str_views(v: Seq<String>) -> Seq<Seq<char>> {
    Seq::new(v.len(), |i: int| v[i]@)
}

/// Strings made of the given character vectors.
pub fn strings_of(v: &Vec<Vec<char>>) -> (r: Vec<String>)
    ensures
        str_views(r@) == views(v@),
{
    let mut r: Vec<String> = Vec::new();
    let mut i: usize = 0;
    while i < v.len()
        invariant
            i <= v@.len(),
            str_views(r@) == views(v@).take(i as int),
        decreases v@.len() - i,
    {
        let ghost before = str_views(r@);
        let item = string_of(v[i].as_slice());
        r.push(item);
        proof {
            assert(str_views(r@) =~= before.push(v@[i as int]@));
            assert(views(v@).take(i + 1) =~= views(v@).take(i as int).push(v@[i as int]@));
        }
        i = i + 1;
    }
    assert(views(v@).take(v@.len() as int) =~= views(v@));
    r
}

/// Index of the first `'\n'`, or the length when there is none.
pub open spec fn newline_at(s: Seq<char>) -> nat
    decreases s.len(),
{
    if s.len() == 0 {
        0
    } else if s[0] == '\n' {
        0
    } else {
        1 + newline_at(s.drop_first())
    }
}

/// A line without its `'\r'` when the line ended in `"\r\n"`.
pub open spec fn strip_cr(s: Seq<char>) -> Seq<char> {
    if s.len() > 0 && s.last() == '\r' {
        s.drop_last()
    } else {
        s
    }
}

/// `str::lines`: pieces separated by `'\n'`; a `"\r\n"` terminator loses
/// its `'\r'` too, and a final terminator does not start an empty line.
pub open spec fn lines(s: Seq<char>) -> Seq<Seq<char>>
    decreases s.len(),
{
    if s.len() == 0 {
        seq![]
    } else {
        let k = newline_at(s);
        if k < s.len() {
            seq![strip_cr(s.take(k as int))] + lines(s.skip(k + 1 as int))
        } else {
            seq![s]
        }
    }
}

/// `str::split_inclusive('\n')`: the lines with their terminators.
pub open spec fn raw_lines(s: Seq<char>) -> Seq<Seq<char>>
    decreases s.len(),
{
    if s.len() == 0 {
        seq![]
    } else {
        let k = newline_at(s);
        if k < s.len() {
            seq![s.take(k + 1 as int)] + raw_lines(s.skip(k + 1 as int))
        } else {
            seq![s]
        }
    }
}

proof fn lemma_newline_at(s: Seq<char>, k: int)
    requires
        0 <= k <= s.len(),
        forall|j: int| 0 <= j < k ==> #[trigger] s[j] != '\n',
        k == s.len() || s[k] == '\n',
    ensures
        newline_at(s) == k,
    decreases k,
{
    if k > 0 {
        lemma_newline_at(s.drop_first(), k - 1);
    }
}

/// The position of the first `'\n'` is within the sequence.
pub proof fn lemma_newline_at_bound(s: Seq<char>)
    ensures
        newline_at(s) <= s.len(),
        newline_at(s) < s.len() ==> s[newline_at(s) as int] == '\n',
    decreases s.len(),
{
    if s.len() > 0 && s[0] != '\n' {
        lemma_newline_at_bound(s.drop_first());
    }
}

/// Position of the next `'\n'` at or after `start`, or the length.
pub fn find_newline(v: &[char], start: usize) -> (k: usize)
    requires
        start <= v@.len(),
    ensures
        start <= k <= v@.len(),
        k - start == newline_at(v@.skip(start as int)),
        k < v@.len() ==> v@[k as int] == '\n',
        forall|j: int| start <= j < k ==> v@[j] != '\n',
{
    let mut k = start;
    while k < v.len() && v[k] != '\n'
        invariant
            start <= k <= v@.len(),
            forall|j: int| start <= j < k ==> v@[j] != '\n',
        decreases v@.len() - k,
    {
        k = k + 1;
    }
    proof {
        let t = v@.skip(start as int);
        assert forall|j: int| 0 <= j < k - start implies #[trigger] t[j] != '\n' by {
            assert(t[j] == v@[start + j]);
        }
        if k < v@.len() {
            assert(t[k - start] == v@[k as int]);
        }
        lemma_newline_at(t, k - start);
    }
    k
}

/// `str::lines` on characters.
pub fn split_lines(v: &[char]) -> (r: Vec<Vec<char>>)
    ensures
        views(r@) == lines(v@),
{
    let mut r: Vec<Vec<char>> = Vec::new();
    let mut pos: usize = 0;
    assert(v@.skip(0) =~= v@);
    assert(views(r@) + lines(v@) =~= lines(v@));
    while pos < v.len()
        invariant
            pos <= v@.len(),
            views(r@) + lines(v@.skip(pos as int)) == lines(v@),
        decreases v@.len() - pos,
    {
        let k = find_newline(v, pos);
        let ghost rest = v@.skip(pos as int);
        let ghost before = views(r@);
        let ghost p0 = pos as int;
        if k < v.len() {
            let mut line = slice_chars(v, pos, k);
            if line.len() > 0 && line[line.len() - 1] == '\r' {
                line.pop();
            }
            proof {
                assert(v@.subrange(pos as int, k as int) =~= rest.take(k - pos));
                assert(rest.skip(k - pos + 1) =~= v@.skip(k + 1));
                assert(line@ == strip_cr(rest.take(k - pos)));
            }
            r.push(line);
            pos = k + 1;
            proof {
                assert(views(r@) =~= before.push(strip_cr(rest.take(k - p0))));
                assert(rest.skip(k - p0 + 1) =~= v@.skip(pos as int));
                assert(lines(rest) == seq![strip_cr(rest.take(k - p0))] + lines(
                    rest.skip(k - p0 + 1),
                ));
                assert(views(r@) + lines(v@.skip(pos as int)) =~= before + lines(rest));
            }
        } else {
            let line = slice_chars(v, pos, k);
            proof {
                assert(v@.subrange(pos as int, k as int) =~= rest);
                assert(lines(rest) == seq![rest]);
            }
            r.push(line);
            pos = k;
            proof {
                assert(v@.skip(pos as int).len() == 0);
                assert(lines(v@.skip(pos as int)) == Seq::<Seq<char>>::empty());
                assert(views(r@) + lines(v@.skip(pos as int)) =~= before + lines(rest));
            }
        }
    }
    assert(v@.skip(pos as int).len() == 0);
    assert(views(r@) + lines(v@.skip(pos as int)) =~= views(r@));
    r
}

/// Lexicographic order by code point: the order of `str` and `String`
/// comparisons, since UTF-8 preserves code point order.
pub open spec fn lex_lt(a: Seq<char>, b: Seq<char>) -> bool
    decreases a.len(),
{
    if a.len() == 0 {
        b.len() > 0
    } else if b.len() == 0 {
        false
    } else if a[0] < b[0] {
        true
    } else if a[0] == b[0] {
        lex_lt(a.drop_first(), b.drop_first())
    } else {
        false
    }
}

/// `lex_lt` is irreflexive.
pub proof fn lemma_lex_irreflexive(a: Seq<char>)
    ensures
        !lex_lt(a, a),
    decreases a.len(),
{
    if a.len() > 0 {
        lemma_lex_irreflexive(a.drop_first());
    }
}

/// `lex_lt` is transitive.
pub proof fn lemma_lex_transitive(a: Seq<char>, b: Seq<char>, c: Seq<char>)
    requires
        lex_lt(a, b),
        lex_lt(b, c),
    ensures
        lex_lt(a, c),
    decreases a.len(),
{
    if a.len() > 0 && b.len() > 0 && c.len() > 0 && a[0] == b[0] && b[0] == c[0] {
        lemma_lex_transitive(a.drop_first(), b.drop_first(), c.drop_first());
    }
}

/// `lex_lt` is total on distinct sequences.
pub proof fn lemma_lex_total(a: Seq<char>, b: Seq<char>)
    requires
        a != b,
    ensures
        lex_lt(a, b) || lex_lt(b, a),
    decreases a.len(),
{
    if a.len() > 0 && b.len() > 0 && a[0] == b[0] {
        if a.drop_first() == b.drop_first() {
            assert(a =~= seq![a[0]] + a.drop_first());
            assert(b =~= seq![b[0]] + b.drop_first());
        }
        lemma_lex_total(a.drop_first(), b.drop_first());
    } else if a.len() == 0 && b.len() == 0 {
        assert(a =~= b);
    }
}

/// `lex_lt` is asymmetric.
pub proof fn lemma_lex_asymmetric(a: Seq<char>, b: Seq<char>)
    requires
        lex_lt(a, b),
    ensures
        !lex_lt(b, a),
{
    if lex_lt(b, a) {
        lemma_lex_transitive(a, b, a);
        lemma_lex_irreflexive(a);
    }
}

proof fn lemma_lex_common_prefix(a: Seq<char>, b: Seq<char>, i: int)
    requires
        0 <= i <= a.len(),
        i <= b.len(),
        forall|j: int| 0 <= j < i ==> a[j] == b[j],
    ensures
        lex_lt(a, b) == lex_lt(a.skip(i), b.skip(i)),
    decreases i,
{
    if i > 0 {
        lemma_lex_common_prefix(a.drop_first(), b.drop_first(), i - 1);
        assert(a.drop_first().skip(i - 1) =~= a.skip(i));
        assert(b.drop_first().skip(i - 1) =~= b.skip(i));
    } else {
        assert(a.skip(0) =~= a);
        assert(b.skip(0) =~= b);
    }
}

/// `a < b` for character sequences in string order.
pub fn chars_lt(a: &[char], b: &[char]) -> (r: bool)
    ensures
        r == lex_lt(a@, b@),
{
    let mut i: usize = 0;
    while i < a.len() && i < b.len() && a[i] == b[i]
        invariant
            i <= a@.len(),
            i <= b@.len(),
            forall|j: int| 0 <= j < i ==> a@[j] == b@[j],
        decreases a@.len() - i,
    {
        i = i + 1;
    }
    proof {
        lemma_lex_common_prefix(a@, b@, i as int);
    }
    if i == a.len() {
        i < b.len()
    } else if i == b.len() {
        false
    } else {
        a[i] < b[i]
    }
}

/// A strictly increasing sequence in string order: a sorted set.
pub open spec fn strictly_sorted(s: Seq<Seq<char>>) -> bool {
    forall|i: int, j: int| 0 <= i < j < s.len() ==> lex_lt(#[trigger] s[i], #[trigger] s[j])
}

/// Inserts `x` into a sorted set of character vectors.
pub fn insert_sorted(v: &mut Vec<Vec<char>>, x: Vec<char>)
    requires
        strictly_sorted(views(old(v)@)),
    ensures
        strictly_sorted(views(final(v)@)),
        views(final(v)@).to_set() == views(old(v)@).to_set().insert(x@),
{
    let mut p: usize = 0;
    while p < v.len() && chars_lt(v[p].as_slice(), x.as_slice())
        invariant
            p <= v@.len(),
            forall|j: int| 0 <= j < p ==> lex_lt(#[trigger] v@[j]@, x@),
        decreases v@.len() - p,
    {
        p = p + 1;
    }
    if p < v.len() && chars_equal(v[p].as_slice(), x.as_slice()) {
        proof {
            assert(views(v@)[p as int] == x@);
            assert(views(v@).to_set() =~= views(v@).to_set().insert(x@));
        }
        return;
    }
    let ghost old_views = views(v@);
    proof {
        if p < v@.len() {
            lemma_lex_total(v@[p as int]@, x@);
        }
    }
    v.insert(p, x);
    proof {
        let nv = views(v@);
        assert(nv =~= old_views.insert(p as int, x@));
        assert forall|i: int, j: int| 0 <= i < j < nv.len() implies lex_lt(#[trigger] nv[i], #[trigger] nv[j]) by {
            if j < p {
                assert(nv[i] == old_views[i] && nv[j] == old_views[j]);
            } else if j == p {
                assert(nv[i] == old_views[i]);
            } else if i == p {
                assert(nv[j] == old_views[j - 1]);
                if j - 1 > p {
                    lemma_lex_transitive(x@, old_views[p as int], old_views[j - 1]);
                }
            } else if i < p {
                assert(nv[i] == old_views[i] && nv[j] == old_views[j - 1]);
                if j - 1 >= p {
                    lemma_lex_transitive(old_views[i], x@, old_views[p as int]);
                    if j - 1 > p {
                        lemma_lex_transitive(old_views[i], old_views[p as int], old_views[j - 1]);
                    }
                }
            } else {
                assert(nv[i] == old_views[i - 1] && nv[j] == old_views[j - 1]);
            }
        }
        assert(nv.to_set() =~= old_views.to_set().insert(x@)) by {
            assert forall|e: Seq<char>| nv.to_set().contains(e) implies old_views.to_set().insert(x@).contains(e) by {
                let k = choose|k: int| 0 <= k < nv.len() && nv[k] == e;
                if k < p {
                    assert(old_views[k] == e);
                } else if k > p {
                    assert(old_views[k - 1] == e);
                }
            }
            assert forall|e: Seq<char>| old_views.to_set().insert(x@).contains(e) implies nv.to_set().contains(e) by {
                if e == x@ {
                    assert(nv[p as int] == e);
                } else {
                    let k = choose|k: int| 0 <= k < old_views.len() && old_views[k] == e;
                    if k < p {
                        assert(nv[k] == e);
                    } else {
                        assert(nv[k + 1] == e);
                    }
                }
            }
        }
    }
}

/// `items.join(sep)`.
pub open spec fn join(items: Seq<Seq<char>>, sep: Seq<char>) -> Seq<char>
    decreases items.len(),
{
    if items.len() == 0 {
        seq![]
    } else if items.len() == 1 {
        items[0]
    } else {
        join(items.drop_last(), sep) + sep + items.last()
    }
}

/// Appends `items.join(sep)`.
pub fn push_joined(s: &mut String, items: &Vec<Vec<char>>, sep: &str)
    ensures
        final(s)@ == old(s)@ + join(views(items@), sep@),
{
    let mut i: usize = 0;
    while i < items.len()
        invariant
            i <= items@.len(),
            s@ == old(s)@ + join(views(items@).take(i as int), sep@),
        decreases items@.len() - i,
    {
        let ghost before = s@;
        if i > 0 {
            s.append(sep);
        }
        push_chars(s, items[i].as_slice());
        proof {
            let t = views(items@).take(i + 1);
            assert(t.drop_last() =~= views(items@).take(i as int));
            if i == 0 {
                assert(join(views(items@).take(0), sep@) =~= Seq::<char>::empty());
                assert(s@ =~= old(s)@ + join(t, sep@));
            } else {
                assert(s@ =~= old(s)@ + join(t, sep@));
            }
        }
        i = i + 1;
    }
    assert(views(items@).take(items@.len() as int) =~= views(items@));
}

/// Appends `items.join(sep)` for a vector of strings.
pub fn push_joined_strings(s: &mut String, items: &Vec<String>, sep: &str)
    ensures
        final(s)@ == old(s)@ + join(str_views(items@), sep@),
{
    let mut i: usize = 0;
    while i < items.len()
        invariant
            i <= items@.len(),
            s@ == old(s)@ + join(str_views(items@).take(i as int), sep@),
        decreases items@.len() - i,
    {
        if i > 0 {
            s.append(sep);
        }
        s.append(items[i].as_str());
        proof {
            let t = str_views(items@).take(i + 1);
            assert(t.drop_last() =~= str_views(items@).take(i as int));
            if i == 0 {
                assert(join(str_views(items@).take(0), sep@) =~= Seq::<char>::empty());
                assert(s@ =~= old(s)@ + join(t, sep@));
            } else {
                assert(s@ =~= old(s)@ + join(t, sep@));
            }
        }
        i = i + 1;
    }
    assert(str_views(items@).take(items@.len() as int) =~= str_views(items@));
}

/// Character count of a string.
pub fn char_count(s: &str) -> (n: usize)
    ensures
        n == s@.len(),
{
    let v = chars_of(s);
    v.len()
}


// ---------------------------------------------------------------------------
// Splitting on separator characters
// ---------------------------------------------------------------------------
/// Separator classes used to cut text into pieces.
pub enum Sep {
    /// `|` or the full-width `｜`: cells of a field line.
    Bar,
    /// `|` only: cells of a Markdown table row.
    Pipe,
    /// Anything but an ASCII letter, digit, `-` or `_`: identifier tokens.
    NonId,
    /// Unicode whitespace: words.
    Space,
    /// Anything but a Unicode letter or digit, `-` or `_`: terms.
    NonWord,
    /// Sentence ends `.` `。` `!` `！` `?` `？` and line breaks.
    Sentence,
    /// `-` only: the words of a slug.
    Dash,
}

/// ASCII letter, digit, `-` or `_`.
pub open spec fn is_id_char(c: char) -> bool {
    is_ascii_alnum(c) || c == '-' || c == '_'
}

pub open spec fn is_sep(kind: Sep, c: char) -> bool {
    match kind {
        Sep::Bar => c == '|' || c == '｜',
        Sep::Pipe => c == '|',
        Sep::NonId => !is_id_char(c),
        Sep::Space => is_ws(c),
        Sep::NonWord => !crate::unicode::unicode_alphanumeric(c) && c != '_' && c != '-',
        Sep::Sentence => c == '.' || c == '。' || c == '!' || c == '！' || c == '?' || c == '？' || c == '\n',
        Sep::Dash => c == '-',
    }
}

/// Index of the first separator, or the length.
pub open spec fn sep_at(s: Seq<char>, kind: Sep) -> nat
    decreases s.len(),
{
    if s.len() == 0 {
        0
    } else if is_sep(kind, s[0]) {
        0
    } else {
        1 + sep_at(s.drop_first(), kind)
    }
}

/// `str::split` with a character class: the pieces between separators,
/// empty ones included; always at least one piece.
pub open spec fn split_by(s: Seq<char>, kind: Sep) -> Seq<Seq<char>>
    decreases s.len(),
{
    let k = sep_at(s, kind);
    if k < s.len() {
        seq![s.take(k as int)] + split_by(s.skip(k + 1 as int), kind)
    } else {
        seq![s]
    }
}

proof fn lemma_sep_at(s: Seq<char>, kind: Sep, k: int)
    requires
        0 <= k <= s.len(),
        forall|j: int| 0 <= j < k ==> !is_sep(kind, #[trigger] s[j]),
        k == s.len() || is_sep(kind, s[k]),
    ensures
        sep_at(s, kind) == k,
    decreases k,
{
    if k > 0 {
        lemma_sep_at(s.drop_first(), kind, k - 1);
    }
}

/// Whether `c` belongs to the separator class.
pub fn sep_char(kind: &Sep, c: char) -> (r: bool)
    ensures
        r == is_sep(*kind, c),
{
    match kind {
        Sep::Bar => c == '|' || c == '｜',
        Sep::Pipe => c == '|',
        Sep::NonId => !((c >= 'a' && c <= 'z') || (c >= 'A' && c <= 'Z') || (c >= '0' && c <= '9')
            || c == '-' || c == '_'),
        Sep::Space => is_whitespace(c),
        Sep::NonWord => !crate::unicode::is_alphanumeric(c) && c != '_' && c != '-',
        Sep::Sentence => c == '.' || c == '。' || c == '!' || c == '！' || c == '?' || c == '？' || c == '\n',
        Sep::Dash => c == '-',
    }
}

/// The pieces of `v` between separators of the class `kind`.
pub fn split_chars(v: &[char], kind: Sep) -> (r: Vec<Vec<char>>)
    ensures
        views(r@) == split_by(v@, kind),
{
    let mut pieces: Vec<Vec<char>> = Vec::new();
    let mut start: usize = 0;
    let mut i: usize = 0;
    assert(v@.skip(0) =~= v@);
    while i < v.len()
        invariant
            start <= i <= v@.len(),
            forall|j: int| start <= j < i ==> !is_sep(kind, #[trigger] v@[j]),
            split_by(v@, kind) == views(pieces@) + split_by(v@.skip(start as int), kind),
        decreases v@.len() - i,
    {
        if sep_char(&kind, v[i]) {
            let piece = slice_chars(v, start, i);
            proof {
                let t = v@.skip(start as int);
                lemma_sep_at(t, kind, i - start);
                assert(t.take(i - start) =~= piece@);
                assert(t.skip(i - start + 1) =~= v@.skip(i + 1));
                assert(views(pieces@.push(piece)) =~= views(pieces@).push(piece@));
                assert(views(pieces@) + split_by(t, kind) =~= views(pieces@).push(piece@)
                    + split_by(v@.skip(i + 1), kind));
            }
            pieces.push(piece);
            start = i + 1;
        }
        i = i + 1;
    }
    let last = slice_chars(v, start, v.len());
    proof {
        let t = v@.skip(start as int);
        lemma_sep_at(t, kind, t.len() as int);
        assert(t =~= last@);
        assert(views(pieces@.push(last)) =~= views(pieces@).push(last@));
        assert(views(pieces@) + split_by(t, kind) =~= views(pieces@).push(last@));
    }
    pieces.push(last);
    pieces
}


/// `str::starts_with`.
pub open spec fn has_prefix(s: Seq<char>, p: Seq<char>) -> bool {
    p.len() <= s.len() && s.take(p.len() as int) == p
}

/// `str::contains` with a string pattern.
pub open spec fn contains_seq(hay: Seq<char>, needle: Seq<char>) -> bool {
    exists|i: int| 0 <= i <= hay.len() - needle.len() && #[trigger] hay.subrange(i, i + needle.len()) == needle
}

/// Whether `needle` occurs in `hay`.
pub fn contains_chars(hay: &[char], needle: &[char]) -> (r: bool)
    ensures
        r == contains_seq(hay@, needle@),
{
    if needle.len() > hay.len() {
        return false;
    }
    if needle.len() == 0 {
        assert(hay@.subrange(0, 0 + needle@.len() as int) =~= needle@);
        return true;
    }
    let mut i: usize = 0;
    while i <= hay.len() - needle.len()
        invariant
            0 < needle@.len() <= hay@.len(),
            i <= hay@.len() - needle@.len() + 1,
            forall|j: int| 0 <= j < i ==> #[trigger] hay@.subrange(j, j + needle@.len()) != needle@,
        decreases hay@.len() - needle@.len() + 1 - i,
    {
        let rest = slice_chars(hay, i, hay.len());
        if starts_with(rest.as_slice(), needle) {
            assert(rest@.take(needle@.len() as int) =~= hay@.subrange(i as int, i + needle@.len()));
            return true;
        }
        assert(rest@.take(needle@.len() as int) =~= hay@.subrange(i as int, i + needle@.len()));
        i = i + 1;
    }
    false
}

/// Whether the string `needle` occurs in `hay`.
pub fn contains_str(hay: &[char], needle: &str) -> (r: bool)
    ensures
        r == contains_seq(hay@, needle@),
{
    let n = chars_of(needle);
    contains_chars(hay, n.as_slice())
}

/// `str::eq_ignore_ascii_case`.
pub open spec fn eq_ignore_case(a: Seq<char>, b: Seq<char>) -> bool {
    ascii_lower_seq(a) == ascii_lower_seq(b)
}

/// Case-insensitive (ASCII) comparison of characters with a string.
pub fn eq_ignore_case_str(a: &[char], b: &str) -> (r: bool)
    ensures
        r == eq_ignore_case(a@, b@),
{
    let bv = chars_of(b);
    let la = ascii_lowercase(a);
    let lb = ascii_lowercase(bv.as_slice());
    chars_equal(la.as_slice(), lb.as_slice())
}

} // verus!
