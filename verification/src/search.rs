//! Wiki search: the literal and regular-expression matcher, the excerpts
//! and context lines shown for a page, page ranking and the reports.

use vstd::prelude::*;
use crate::text::{chars_of, lex_lt, newline_at, push_chars, slice_chars, truncated_text};

verus! {

/// The position after the last `'\n'` before `k`, or 0.
pub open spec fn line_start_before(s: Seq<char>, k: int) -> int
    decreases k,
{
    if k <= 0 {
        0
    } else if s[k - 1] == '\n' {
        k
    } else {
        line_start_before(s, k - 1)
    }
}

/// Up to two lines before `cursor`, in the order the excerpt builds them.
pub open spec fn lines_before(s: Seq<char>, cursor: int, count: nat, body: Seq<char>) -> Seq<char>
    decreases 2 - count,
{
    if count >= 2 || cursor <= 0 {
        body
    } else {
        let pb = line_start_before(s, cursor - 1);
        if pb == cursor {
            body
        } else {
            lines_before(s, pb, count + 1, s.subrange(pb, cursor) + body + seq!['\n'])
        }
    }
}

/// The excerpt around the match at character `pos`: up to two preceding
/// lines, the matching line, cut to `limit` characters with `...`.
pub open spec fn excerpt_text(s: Seq<char>, pos: int, limit: nat) -> Seq<char> {
    let start = line_start_before(s, pos);
    let end = pos + newline_at(s.skip(pos));
    truncated_text(lines_before(s, start, 0, seq![]) + s.subrange(start, end) + seq!['\n'], limit)
}

proof fn lemma_line_start_bounds(s: Seq<char>, k: int)
    requires
        0 <= k <= s.len(),
    ensures
        0 <= line_start_before(s, k) <= k,
        line_start_before(s, k) > 0 ==> s[line_start_before(s, k) - 1] == '\n',
    decreases k,
{
    if k > 0 && s[k - 1] != '\n' {
        lemma_line_start_bounds(s, k - 1);
    }
}

fn start_of_line(v: &[char], k: usize) -> (r: usize)
    requires
        k <= v@.len(),
    ensures
        r == line_start_before(v@, k as int),
        r <= k,
{
    let mut j = k;
    while j > 0 && v[j - 1] != '\n'
        invariant
            j <= k <= v@.len(),
            line_start_before(v@, j as int) == line_start_before(v@, k as int),
        decreases j,
    {
        j = j - 1;
    }
    j
}

/// The excerpt shown for a match at character `match_pos`: up to two lines
/// before the matching line, the matching line itself, and `...` when the
/// excerpt is longer than `char_limit` characters.
pub fn excerpt_around(text: &str, match_pos: usize, match_len: usize, char_limit: usize) -> (r: String)
    requires
        match_pos <= text@.len(),
    ensures
        r@ == excerpt_text(text@, match_pos as int, char_limit as nat),
{
    let v = chars_of(text);
    let line_start = start_of_line(v.as_slice(), match_pos);
    let line_end = crate::text::find_newline(v.as_slice(), match_pos);
    let mut body: Vec<char> = Vec::new();
    let mut cursor = line_start;
    let mut before_count: usize = 0;
    while before_count < 2 && cursor > 0
        invariant_except_break
            before_count <= 2,
            cursor <= v@.len(),
            lines_before(v@, line_start as int, 0, seq![]) == lines_before(v@, cursor as int, before_count as nat, body@),
        ensures
            lines_before(v@, line_start as int, 0, seq![]) == body@,
        decreases 2 - before_count,
    {
        let prev_break = start_of_line(v.as_slice(), cursor - 1);
        if prev_break == cursor {
            break;
        }
        let ghost old_body = body@;
        let mut next = slice_chars(v.as_slice(), prev_break, cursor);
        let mut rest = body;
        next.append(&mut rest);
        next.push('\n');
        body = next;
        assert(body@ =~= v@.subrange(prev_break as int, cursor as int) + old_body + seq!['\n']);
        cursor = prev_break;
        before_count = before_count + 1;
    }
    let mut out: Vec<char> = body;
    let mut line = slice_chars(v.as_slice(), line_start, line_end);
    out.append(&mut line);
    out.push('\n');
    let _ = match_len;
    let s = crate::text::string_of(out.as_slice());
    crate::text::truncate_text(s.as_str(), char_limit)
}

// ---------------------------------------------------------------------------
// The matcher
// ---------------------------------------------------------------------------

/// What separates the words of a phrase in a multi-word literal query:
/// any run of whitespace, punctuation, symbols, `/`, `_` or `-`.
pub const PHRASE_GAP: &'static str = "[\\s\\p{P}\\p{S}/_-]*";

/// Message for an empty query.
pub const EMPTY_QUERY: &'static str = "wiki search query must be a non-empty string.";

/// A compiled search query: the pattern of the whole query, the patterns
/// of its words and of the words as a phrase (for multi-word literals),
/// the words, and whether case is ignored.
pub struct Matcher {
    pub pattern: String,
    pub token_patterns: Option<Vec<String>>,
    pub phrase_pattern: Option<String>,
    pub tokens: Option<Vec<String>>,
    pub case_insensitive: bool,
}

pub open spec fn opt_texts(o: Option<Vec<String>>) -> Option<Seq<Seq<char>>> {
    match o {
        Some(v) => Some(crate::text::str_views(v@)),
        None => None,
    }
}

pub open spec fn opt_text(o: Option<String>) -> Option<Seq<char>> {
    match o {
        Some(v) => Some(v@),
        None => None,
    }
}

/// A matcher as (pattern, word patterns, phrase pattern, words).
pub open spec fn matcher_view(m: Matcher) -> (Seq<char>, Option<Seq<Seq<char>>>, Option<Seq<char>>, Option<Seq<Seq<char>>>) {
    (m.pattern@, opt_texts(m.token_patterns), opt_text(m.phrase_pattern), opt_texts(m.tokens))
}

/// The patterns of a query: the query itself in regex mode; otherwise its
/// escaped text, and for several whitespace-separated words their escaped
/// forms, those joined by `PHRASE_GAP`, and the words.
pub open spec fn matcher_parts(q: Seq<char>, regex_mode: bool) -> (Seq<char>, Option<Seq<Seq<char>>>, Option<Seq<char>>, Option<Seq<Seq<char>>>) {
    if regex_mode {
        (q, None, None, None)
    } else {
        let split = crate::ask::words(q);
        if split.len() <= 1 {
            (crate::pattern::escaped(q), None, None, None)
        } else {
            let esc = Seq::new(split.len(), |i: int| crate::pattern::escaped(split[i]));
            (crate::pattern::escaped(q), Some(esc), Some(crate::text::join(esc, PHRASE_GAP@)), Some(split))
        }
    }
}

/// The first build error among the patterns, in order.
pub open spec fn first_build_error(ps: Seq<Seq<char>>, ci: bool) -> Option<Seq<char>>
    decreases ps.len(),
{
    if ps.len() == 0 {
        None
    } else {
        match crate::pattern::regex_build_error(ps[0], ci) {
            Some(e) => Some(e),
            None => first_build_error(ps.drop_first(), ci),
        }
    }
}

/// Why a query does not compile, if it does not: it is empty, or one of
/// its patterns (whole query, words, phrase, in that order) does not build.
pub open spec fn query_error(q: Seq<char>, regex_mode: bool, ci: bool) -> Option<Seq<char>> {
    if q.len() == 0 {
        Some(EMPTY_QUERY@)
    } else {
        let parts = matcher_parts(q, regex_mode);
        let all = seq![parts.0] + match parts.1 { Some(t) => t, None => seq![] } + match parts.2 {
            Some(p) => seq![p],
            None => seq![],
        };
        match first_build_error(all, ci) {
            Some(e) => Some("Invalid regex pattern: "@ + e),
            None => None,
        }
    }
}

proof fn lemma_first_build_error_append(a: Seq<Seq<char>>, b: Seq<Seq<char>>, ci: bool)
    ensures
        first_build_error(a + b, ci) == match first_build_error(a, ci) {
            Some(e) => Some(e),
            None => first_build_error(b, ci),
        },
    decreases a.len(),
{
    if a.len() > 0 {
        assert((a + b).drop_first() =~= a.drop_first() + b);
        lemma_first_build_error_append(a.drop_first(), b, ci);
    } else {
        assert(a + b =~= b);
    }
}

/// The first build error among `ps`, checked in order.
fn first_error(ps: &Vec<String>, ci: bool) -> (r: Option<String>)
    ensures
        opt_text(r) == first_build_error(crate::text::str_views(ps@), ci),
{
    let ghost all = crate::text::str_views(ps@);
    let mut i: usize = 0;
    assert(all.skip(0) =~= all);
    while i < ps.len()
        invariant
            i <= ps@.len(),
            all == crate::text::str_views(ps@),
            first_build_error(all, ci) == first_build_error(all.skip(i as int), ci),
        decreases ps@.len() - i,
    {
        proof {
            assert(all.skip(i as int)[0] == ps@[i as int]@);
            assert(all.skip(i as int).drop_first() =~= all.skip(i + 1));
        }
        match crate::pattern::build_error(ps[i].as_str(), ci) {
            Some(e) => return Some(e),
            None => {},
        }
        i = i + 1;
    }
    None
}

impl Matcher {
    /// Compiles a query: empty queries and patterns that do not build are
    /// refused with a message.
    pub fn compile(query: &str, regex_mode: bool, case_insensitive: bool) -> (r: Result<Matcher, String>)
        ensures
            match r {
                Ok(m) => query_error(query@, regex_mode, case_insensitive) is None
                    && matcher_view(m) == matcher_parts(query@, regex_mode)
                    && m.case_insensitive == case_insensitive,
                Err(e) => query_error(query@, regex_mode, case_insensitive) == Some(e@),
            },
    {
        let qv = chars_of(query);
        if qv.len() == 0 {
            return Err(String::from_str(EMPTY_QUERY));
        }
        let ghost parts = matcher_parts(query@, regex_mode);
        let mut token_patterns: Option<Vec<String>> = None;
        let mut phrase_pattern: Option<String> = None;
        let mut tokens: Option<Vec<String>> = None;
        let pattern: String;
        if regex_mode {
            pattern = String::from_str(query);
        } else {
            let pieces = crate::text::split_chars(qv.as_slice(), crate::text::Sep::Space);
            let mut split: Vec<String> = Vec::new();
            let mut i: usize = 0;
            while i < pieces.len()
                invariant
                    i <= pieces@.len(),
                    qv@ == query@,
                    crate::text::views(pieces@) == crate::text::split_by(qv@, crate::text::Sep::Space),
                    crate::text::str_views(split@) == crate::ask::drop_empty(crate::text::views(pieces@).take(i as int)),
                decreases pieces@.len() - i,
            {
                proof {
                    let t = crate::text::views(pieces@).take(i + 1);
                    assert(t.drop_last() =~= crate::text::views(pieces@).take(i as int));
                    assert(t.last() == pieces@[i as int]@);
                }
                if pieces[i].len() > 0 {
                    let ghost before = crate::text::str_views(split@);
                    split.push(crate::text::string_of(pieces[i].as_slice()));
                    assert(crate::text::str_views(split@) =~= before.push(pieces@[i as int]@));
                }
                i = i + 1;
            }
            assert(crate::text::views(pieces@).take(pieces@.len() as int) =~= crate::text::views(pieces@));
            pattern = crate::pattern::escape(query);
            if split.len() > 1 {
                let ghost sv = crate::text::str_views(split@);
                let mut esc: Vec<String> = Vec::new();
                let mut j: usize = 0;
                while j < split.len()
                    invariant
                        j <= split@.len(),
                        sv == crate::text::str_views(split@),
                        crate::text::str_views(esc@) == Seq::new(j as nat, |k: int| crate::pattern::escaped(sv[k])),
                    decreases split@.len() - j,
                {
                    let ghost before = crate::text::str_views(esc@);
                    esc.push(crate::pattern::escape(split[j].as_str()));
                    assert(sv[j as int] == split@[j as int]@);
                    assert(crate::text::str_views(esc@) =~= before.push(crate::pattern::escaped(sv[j as int])));
                    assert(crate::text::str_views(esc@) =~= Seq::new((j + 1) as nat, |k: int| crate::pattern::escaped(sv[k])));
                    j = j + 1;
                }
                let mut phrase = String::new();
                crate::text::push_joined_strings(&mut phrase, &esc, PHRASE_GAP);
                assert(phrase@ =~= crate::text::join(crate::text::str_views(esc@), PHRASE_GAP@));
                token_patterns = Some(esc);
                phrase_pattern = Some(phrase);
                tokens = Some(split);
            }
        }
        let mut all: Vec<String> = Vec::new();
        all.push(pattern.clone());
        let ghost head = crate::text::str_views(all@);
        assert(head =~= seq![pattern@]);
        match &token_patterns {
            Some(ps) => {
                let mut k: usize = 0;
                while k < ps.len()
                    invariant
                        k <= ps@.len(),
                        crate::text::str_views(all@) == head + crate::text::str_views(ps@).take(k as int),
                    decreases ps@.len() - k,
                {
                    let ghost before = crate::text::str_views(all@);
                    all.push(ps[k].clone());
                    assert(crate::text::str_views(all@) =~= before.push(ps@[k as int]@));
                    assert(crate::text::str_views(ps@).take(k + 1) =~= crate::text::str_views(ps@).take(k as int).push(ps@[k as int]@));
                    k = k + 1;
                }
                assert(crate::text::str_views(ps@).take(ps@.len() as int) =~= crate::text::str_views(ps@));
            },
            None => {},
        }
        let ghost mid = crate::text::str_views(all@);
        match &phrase_pattern {
            Some(p) => {
                all.push(p.clone());
                assert(crate::text::str_views(all@) =~= mid.push(p@));
            },
            None => {},
        }
        proof {
            let want = seq![parts.0] + match parts.1 { Some(t) => t, None => seq![] } + match parts.2 {
                Some(p) => seq![p],
                None => seq![],
            };
            assert(crate::text::str_views(all@) =~= want);
        }
        match first_error(&all, case_insensitive) {
            Some(e) => {
                let mut m = String::from_str("Invalid regex pattern: ");
                m.append(e.as_str());
                Err(m)
            },
            None => Ok(Matcher { pattern, token_patterns, phrase_pattern, tokens, case_insensitive }),
        }
    }

    /// The words of a multi-word literal query.
    pub fn tokens(&self) -> (r: Option<&[String]>)
        ensures
            match r {
                Some(t) => self.tokens matches Some(v) && t@ == v@,
                None => self.tokens is None,
            },
    {
        match &self.tokens {
            Some(v) => Some(v.as_slice()),
            None => None,
        }
    }
}

/// The whole text matches: every word pattern of a multi-word literal, or
/// the query's pattern.
pub open spec fn matcher_matches(m: (Seq<char>, Option<Seq<Seq<char>>>, Option<Seq<char>>, Option<Seq<Seq<char>>>), ci: bool, text: Seq<char>) -> bool {
    match m.1 {
        Some(ps) => all_match(ps, ci, text),
        None => crate::pattern::regex_matches(m.0, ci, text),
    }
}

/// Every pattern matches somewhere in the text.
pub open spec fn all_match(ps: Seq<Seq<char>>, ci: bool, text: Seq<char>) -> bool {
    forall|i: int| 0 <= i < ps.len() ==> crate::pattern::regex_matches(#[trigger] ps[i], ci, text)
}

/// Number of matches of each pattern, added up, at most `usize::MAX`.
pub open spec fn hit_count(ps: Seq<Seq<char>>, ci: bool, text: Seq<char>) -> nat
    decreases ps.len(),
{
    if ps.len() == 0 {
        0
    } else {
        let s = hit_count(ps.drop_last(), ci, text) + crate::pattern::regex_find_spans(ps.last(), ci, text).len();
        if s > usize::MAX { usize::MAX as nat } else { s }
    }
}

/// How strongly a page matches: phrase matches, then word (or query)
/// matches.
#[derive(Clone, Copy, PartialEq, Eq, Structural, Debug)]
pub struct MatchScore {
    pub phrase_hits: usize,
    pub token_hits: usize,
}

/// The score of a text.
pub open spec fn score_of(m: (Seq<char>, Option<Seq<Seq<char>>>, Option<Seq<char>>, Option<Seq<Seq<char>>>), ci: bool, text: Seq<char>) -> (nat, nat) {
    (
        match m.2 {
            Some(p) => crate::pattern::regex_find_spans(p, ci, text).len(),
            None => 0,
        },
        match m.1 {
            Some(ps) => hit_count(ps, ci, text),
            None => crate::pattern::regex_find_spans(m.0, ci, text).len(),
        },
    )
}

/// The spans of all word patterns, pattern by pattern.
pub open spec fn token_spans(ps: Seq<Seq<char>>, ci: bool, text: Seq<char>) -> Seq<(usize, usize)>
    decreases ps.len(),
{
    if ps.len() == 0 {
        seq![]
    } else {
        token_spans(ps.drop_last(), ci, text) + crate::pattern::regex_find_spans(ps.last(), ci, text)
    }
}

/// The raw match spans: phrase matches when there are any, else every
/// word's matches; the query's matches when there is no phrase.
pub open spec fn raw_spans(m: (Seq<char>, Option<Seq<Seq<char>>>, Option<Seq<char>>, Option<Seq<Seq<char>>>), ci: bool, text: Seq<char>) -> Seq<(usize, usize)> {
    match m.2 {
        Some(p) => {
            let ps = crate::pattern::regex_find_spans(p, ci, text);
            if ps.len() > 0 {
                ps
            } else {
                match m.1 {
                    Some(ts) => token_spans(ts, ci, text),
                    None => seq![],
                }
            }
        },
        None => crate::pattern::regex_find_spans(m.0, ci, text),
    }
}

/// Spans ordered by start, then end.
pub open spec fn span_lt(a: (usize, usize), b: (usize, usize)) -> bool {
    a.0 < b.0 || (a.0 == b.0 && a.1 < b.1)
}

/// Strictly increasing spans.
pub open spec fn spans_sorted(s: Seq<(usize, usize)>) -> bool {
    forall|i: int, j: int| 0 <= i < j < s.len() ==> span_lt(#[trigger] s[i], #[trigger] s[j])
}

/// Spans within a text of `n` characters.
pub open spec fn spans_in(s: Seq<(usize, usize)>, n: nat) -> bool {
    forall|i: int| 0 <= i < s.len() ==> (#[trigger] s[i]).0 <= s[i].1 <= n
}

/// Inserts a span into strictly increasing spans unless it is there.
fn insert_span(v: &mut Vec<(usize, usize)>, x: (usize, usize))
    requires
        spans_sorted(old(v)@),
    ensures
        spans_sorted(final(v)@),
        final(v)@.to_set() == old(v)@.to_set().insert(x),
{
    let mut p: usize = 0;
    while p < v.len() && (v[p].0 < x.0 || (v[p].0 == x.0 && v[p].1 < x.1))
        invariant
            p <= v@.len(),
            forall|j: int| 0 <= j < p ==> span_lt(#[trigger] v@[j], x),
        decreases v@.len() - p,
    {
        p = p + 1;
    }
    let ghost ov = v@;
    if p < v.len() && v[p].0 == x.0 && v[p].1 == x.1 {
        assert(ov.to_set() =~= ov.to_set().insert(x));
        return;
    }
    v.insert(p, x);
    proof {
        let nv = v@;
        assert(nv =~= ov.insert(p as int, x));
        assert forall|i: int, j: int| 0 <= i < j < nv.len() implies span_lt(#[trigger] nv[i], #[trigger] nv[j]) by {
            if j < p {
                assert(nv[i] == ov[i] && nv[j] == ov[j]);
            } else if j == p {
                assert(nv[i] == ov[i]);
            } else if i == p {
                assert(nv[j] == ov[j - 1]);
            } else if i < p {
                assert(nv[i] == ov[i] && nv[j] == ov[j - 1]);
            } else {
                assert(nv[i] == ov[i - 1] && nv[j] == ov[j - 1]);
            }
        }
        assert(nv.to_set() =~= ov.to_set().insert(x)) by {
            assert forall|e| nv.to_set().contains(e) implies ov.to_set().insert(x).contains(e) by {
                let k = choose|k: int| 0 <= k < nv.len() && nv[k] == e;
                if k < p {
                    assert(ov[k] == e);
                } else if k > p {
                    assert(ov[k - 1] == e);
                }
            }
            assert forall|e| ov.to_set().insert(x).contains(e) implies nv.to_set().contains(e) by {
                if e == x {
                    assert(nv[p as int] == e);
                } else {
                    let k = choose|k: int| 0 <= k < ov.len() && ov[k] == e;
                    if k < p {
                        assert(nv[k] == e);
                    } else {
                        assert(nv[k + 1] == e);
                    }
                }
            }
        }
    }
}

impl Matcher {
    /// Whether the whole text matches the query.
    pub fn is_match(&self, text: &str) -> (r: bool)
        ensures
            r == matcher_matches(matcher_view(*self), self.case_insensitive, text@),
    {
        match &self.token_patterns {
            Some(ps) => {
                let mut i: usize = 0;
                while i < ps.len()
                    invariant
                        i <= ps@.len(),
                        matcher_view(*self).1 == Some(crate::text::str_views(ps@)),
                        forall|j: int| 0 <= j < i ==> crate::pattern::regex_matches(#[trigger] crate::text::str_views(ps@)[j], self.case_insensitive, text@),
                    decreases ps@.len() - i,
                {
                    if !crate::pattern::matches_text(ps[i].as_str(), self.case_insensitive, text) {
                        proof {
                            let pv = crate::text::str_views(ps@);
                            assert(pv[i as int] == ps@[i as int]@);
                            assert(!crate::pattern::regex_matches(pv[i as int], self.case_insensitive, text@));
                            assert(matcher_view(*self).1 == Some(pv));
                            assert(!all_match(pv, self.case_insensitive, text@));
                            assert(!matcher_matches(matcher_view(*self), self.case_insensitive, text@));
                        }
                        return false;
                    }
                    i = i + 1;
                }
                true
            },
            None => crate::pattern::matches_text(self.pattern.as_str(), self.case_insensitive, text),
        }
    }

    /// The page score of a text.
    pub fn score(&self, text: &str) -> (r: MatchScore)
        ensures
            (r.phrase_hits as nat, r.token_hits as nat) == score_of(matcher_view(*self), self.case_insensitive, text@),
    {
        let phrase_hits: usize = match &self.phrase_pattern {
            Some(p) => crate::pattern::find_spans(p.as_str(), self.case_insensitive, text).len(),
            None => 0,
        };
        let token_hits: usize = match &self.token_patterns {
            Some(ps) => {
                let ghost pv = crate::text::str_views(ps@);
                let mut total: usize = 0;
                let mut i: usize = 0;
                while i < ps.len()
                    invariant
                        i <= ps@.len(),
                        pv == crate::text::str_views(ps@),
                        total == hit_count(pv.take(i as int), self.case_insensitive, text@),
                    decreases ps@.len() - i,
                {
                    let n = crate::pattern::find_spans(ps[i].as_str(), self.case_insensitive, text).len();
                    proof {
                        assert(pv.take(i + 1).drop_last() =~= pv.take(i as int));
                        assert(pv.take(i + 1).last() == ps@[i as int]@);
                    }
                    total = total.saturating_add(n);
                    i = i + 1;
                }
                assert(pv.take(pv.len() as int) =~= pv);
                total
            },
            None => crate::pattern::find_spans(self.pattern.as_str(), self.case_insensitive, text).len(),
        };
        MatchScore { phrase_hits, token_hits }
    }

    /// The match spans of a text, ordered and without repeats.
    pub fn match_ranges(&self, text: &str) -> (r: Vec<(usize, usize)>)
        ensures
            spans_sorted(r@),
            r@.to_set() == raw_spans(matcher_view(*self), self.case_insensitive, text@).to_set(),
            spans_in(r@, text@.len()),
    {
        let mut raw: Vec<(usize, usize)> = Vec::new();
        let mut use_main = true;
        match &self.phrase_pattern {
            Some(p) => {
                use_main = false;
                raw = crate::pattern::find_spans(p.as_str(), self.case_insensitive, text);
                if raw.len() == 0 {
                    match &self.token_patterns {
                        Some(ps) => {
                            let ghost pv = crate::text::str_views(ps@);
                            let mut i: usize = 0;
                            while i < ps.len()
                                invariant
                                    i <= ps@.len(),
                                    pv == crate::text::str_views(ps@),
                                    raw@ == token_spans(pv.take(i as int), self.case_insensitive, text@),
                                    spans_in(raw@, text@.len()),
                                decreases ps@.len() - i,
                            {
                                let mut more = crate::pattern::find_spans(ps[i].as_str(), self.case_insensitive, text);
                                proof {
                                    assert(pv.take(i + 1).drop_last() =~= pv.take(i as int));
                                    assert(pv.take(i + 1).last() == ps@[i as int]@);
                                }
                                let ghost before = raw@;
                                let ghost mv = more@;
                                raw.append(&mut more);
                                assert(raw@ =~= before + mv);
                                i = i + 1;
                            }
                            assert(pv.take(pv.len() as int) =~= pv);
                        },
                        None => {},
                    }
                }
            },
            None => {},
        }
        if use_main {
            raw = crate::pattern::find_spans(self.pattern.as_str(), self.case_insensitive, text);
        }
        let mut out: Vec<(usize, usize)> = Vec::new();
        let mut k: usize = 0;
        assert(out@.to_set() =~= Set::empty());
        while k < raw.len()
            invariant
                k <= raw@.len(),
                spans_sorted(out@),
                out@.to_set() == raw@.take(k as int).to_set(),
                spans_in(raw@, text@.len()),
            decreases raw@.len() - k,
        {
            insert_span(&mut out, raw[k]);
            proof {
                crate::rag::lemma_take_push_set(raw@, k as int);
            }
            k = k + 1;
        }
        assert(raw@.take(raw@.len() as int) =~= raw@);
        proof {
            assert forall|i: int| 0 <= i < out@.len() implies (#[trigger] out@[i]).0 <= out@[i].1 <= text@.len() by {
                assert(out@.to_set().contains(out@[i]));
                let j = choose|j: int| 0 <= j < raw@.len() && raw@[j] == out@[i];
            }
        }
        out
    }
}

/// The excerpts for the first spans, at most `limit`.
pub open spec fn excerpts_of(text: Seq<char>, spans: Seq<(usize, usize)>, limit: nat, body_limit: nat) -> Seq<Seq<char>> {
    let n = if spans.len() < limit { spans.len() } else { limit };
    Seq::new(n, |i: int| excerpt_text(text, spans[i].0 as int, body_limit))
}

/// The line matches the query: one of the word patterns, or the query's
/// pattern.
pub open spec fn line_hit(m: (Seq<char>, Option<Seq<Seq<char>>>, Option<Seq<char>>, Option<Seq<Seq<char>>>), ci: bool, line: Seq<char>) -> bool {
    match m.1 {
        Some(ps) => any_match(ps, ci, line),
        None => crate::pattern::regex_matches(m.0, ci, line),
    }
}

/// Some pattern matches the line.
pub open spec fn any_match(ps: Seq<Seq<char>>, ci: bool, line: Seq<char>) -> bool {
    exists|i: int| 0 <= i < ps.len() && crate::pattern::regex_matches(#[trigger] ps[i], ci, line)
}

/// Indices of the matching lines among the first `n`.
pub open spec fn hit_lines(m: (Seq<char>, Option<Seq<Seq<char>>>, Option<Seq<char>>, Option<Seq<Seq<char>>>), ci: bool, ls: Seq<Seq<char>>, n: nat) -> Seq<nat>
    decreases n,
{
    if n == 0 {
        seq![]
    } else {
        let rest = hit_lines(m, ci, ls, (n - 1) as nat);
        if line_hit(m, ci, ls[n - 1]) {
            rest.push((n - 1) as nat)
        } else {
            rest
        }
    }
}

/// The line windows `[index - context, index + context + 1)` (clipped to
/// the `n` lines), overlapping or touching windows merged.
pub open spec fn windows(idx: Seq<nat>, context: nat, n: nat) -> Seq<(nat, nat)>
    decreases idx.len(),
{
    if idx.len() == 0 {
        seq![]
    } else {
        let acc = windows(idx.drop_last(), context, n);
        let i = idx.last();
        let start: nat = if i >= context { (i - context) as nat } else { 0 };
        let end: nat = if i + context + 1 <= n { i + context + 1 } else { n };
        if acc.len() > 0 && start <= acc.last().1 {
            acc.update(acc.len() - 1, (acc.last().0, if acc.last().1 >= end { acc.last().1 } else { end }))
        } else {
            acc.push((start, end))
        }
    }
}

/// The numbered lines of the windows, in order.
pub open spec fn window_lines(ls: Seq<Seq<char>>, ws: Seq<(nat, nat)>) -> Seq<(nat, Seq<char>)>
    decreases ws.len(),
{
    if ws.len() == 0 {
        seq![]
    } else {
        let w = ws.last();
        window_lines(ls, ws.drop_last()) + Seq::new((w.1 - w.0) as nat, |k: int| ((w.0 + k + 1) as nat, ls[w.0 + k]))
    }
}

/// The content-mode lines of a text: none unless the whole text matches;
/// otherwise the matching lines with `context` lines around them, merged,
/// numbered from one.
pub open spec fn content_lines(m: (Seq<char>, Option<Seq<Seq<char>>>, Option<Seq<char>>, Option<Seq<Seq<char>>>), ci: bool, text: Seq<char>, context: nat) -> Seq<(nat, Seq<char>)> {
    if !matcher_matches(m, ci, text) {
        seq![]
    } else {
        let ls = crate::text::lines(text);
        window_lines(ls, windows(hit_lines(m, ci, ls, ls.len()), context, ls.len()))
    }
}

pub open spec fn numbered_views(v: Seq<(usize, String)>) -> Seq<(nat, Seq<char>)> {
    Seq::new(v.len(), |i: int| (v[i].0 as nat, v[i].1@))
}

proof fn lemma_windows_bounds(idx: Seq<nat>, context: nat, n: nat)
    requires
        forall|k: int| 0 <= k < idx.len() ==> #[trigger] idx[k] < n,
    ensures
        forall|k: int| 0 <= k < windows(idx, context, n).len() ==> #[trigger] windows(idx, context, n)[k].0 <= windows(idx, context, n)[k].1 <= n,
    decreases idx.len(),
{
    if idx.len() > 0 {
        let acc = windows(idx.drop_last(), context, n);
        lemma_windows_bounds(idx.drop_last(), context, n);
        let w = windows(idx, context, n);
        assert(idx.last() < n);
        assert forall|k: int| 0 <= k < w.len() implies #[trigger] w[k].0 <= w[k].1 <= n by {
            if k < acc.len() - 1 || (k < acc.len() && w.len() > acc.len()) {
                assert(w[k] == acc[k]);
            }
        }
    }
}

impl Matcher {
    /// Up to `limit` excerpts, one per match span in order, or none when
    /// the text does not match.
    pub fn find_excerpts(&self, text: &str, limit: usize, body_char_limit: usize) -> (r: Vec<String>)
        ensures
            !matcher_matches(matcher_view(*self), self.case_insensitive, text@) ==> r@.len() == 0,
            matcher_matches(matcher_view(*self), self.case_insensitive, text@) ==> exists|spans: Seq<(usize, usize)>| {
                &&& spans_sorted(spans)
                &&& spans.to_set() == raw_spans(matcher_view(*self), self.case_insensitive, text@).to_set()
                &&& crate::text::str_views(r@) == excerpts_of(text@, spans, limit as nat, body_char_limit as nat)
            },
    {
        let mut out: Vec<String> = Vec::new();
        if !self.is_match(text) {
            return out;
        }
        let ranges = self.match_ranges(text);
        let ghost want = excerpts_of(text@, ranges@, limit as nat, body_char_limit as nat);
        let mut i: usize = 0;
        while i < ranges.len() && out.len() < limit
            invariant
                i <= ranges@.len(),
                out@.len() == i,
                i <= limit,
                spans_in(ranges@, text@.len()),
                want == excerpts_of(text@, ranges@, limit as nat, body_char_limit as nat),
                crate::text::str_views(out@) == want.take(i as int),
            decreases ranges@.len() - i,
        {
            let (start, end) = ranges[i];
            let body = excerpt_around(text, start, end - start, body_char_limit);
            let ghost before = crate::text::str_views(out@);
            out.push(body);
            assert(crate::text::str_views(out@) =~= want.take(i + 1));
            i = i + 1;
        }
        assert(want.take(i as int) =~= want);
        out
    }

    /// The numbered lines shown for a text in content mode.
    pub fn find_content_matches(&self, text: &str, context: usize) -> (r: Vec<(usize, String)>)
        ensures
            numbered_views(r@) == content_lines(matcher_view(*self), self.case_insensitive, text@, context as nat),
    {
        let mut out: Vec<(usize, String)> = Vec::new();
        if !self.is_match(text) {
            return out;
        }
        let ls = crate::text::split_lines(chars_of(text).as_slice());
        let ghost lv = crate::text::views(ls@);
        let ghost mv = matcher_view(*self);
        let ci = self.case_insensitive;
        let mut hits: Vec<usize> = Vec::new();
        let mut i: usize = 0;
        while i < ls.len()
            invariant
                i <= ls@.len(),
                lv == crate::text::views(ls@),
                mv == matcher_view(*self),
                ci == self.case_insensitive,
                hits@.len() == hit_lines(mv, ci, lv, i as nat).len(),
                forall|k: int| 0 <= k < hits@.len() ==> hits@[k] as nat == #[trigger] hit_lines(mv, ci, lv, i as nat)[k],
            decreases ls@.len() - i,
        {
            let line = crate::text::string_of(ls[i].as_slice());
            let hit = match &self.token_patterns {
                Some(ps) => {
                    let mut any = false;
                    let mut j: usize = 0;
                    while j < ps.len() && !any
                        invariant
                            j <= ps@.len(),
                            mv.1 == Some(crate::text::str_views(ps@)),
                            any ==> any_match(crate::text::str_views(ps@), ci, line@),
                            !any ==> forall|k: int| 0 <= k < j ==> !crate::pattern::regex_matches(#[trigger] crate::text::str_views(ps@)[k], ci, line@),
                        decreases ps@.len() - j,
                    {
                        if crate::pattern::matches_text(ps[j].as_str(), ci, line.as_str()) {
                            assert(crate::text::str_views(ps@)[j as int] == ps@[j as int]@);
                            any = true;
                        }
                        j = j + 1;
                    }
                    any
                },
                None => crate::pattern::matches_text(self.pattern.as_str(), ci, line.as_str()),
            };
            assert(hit == line_hit(mv, ci, lv[i as int]));
            if hit {
                hits.push(i);
            }
            i = i + 1;
        }
        let ghost hv = hit_lines(mv, ci, lv, lv.len());
        let n = ls.len();
        proof {
            assert forall|k: int| 0 <= k < hv.len() implies #[trigger] hv[k] < lv.len() by {
                lemma_hit_lines_bound(mv, ci, lv, lv.len(), k);
            }
            lemma_windows_bounds(hv, context as nat, n as nat);
        }
        let mut ranges: Vec<(usize, usize)> = Vec::new();
        let mut h: usize = 0;
        while h < hits.len()
            invariant
                h <= hits@.len(),
                hits@.len() == hv.len(),
                n == lv.len(),
                forall|k: int| 0 <= k < hits@.len() ==> hits@[k] as nat == #[trigger] hv[k],
                forall|k: int| 0 <= k < hv.len() ==> #[trigger] hv[k] < n,
                ranges@.len() == windows(hv.take(h as int), context as nat, n as nat).len(),
                forall|k: int| 0 <= k < ranges@.len() ==> (ranges@[k].0 as nat, ranges@[k].1 as nat) == #[trigger] windows(hv.take(h as int), context as nat, n as nat)[k],
                forall|k: int| 0 <= k < ranges@.len() ==> (#[trigger] ranges@[k]).0 <= ranges@[k].1 <= n,
            decreases hits@.len() - h,
        {
            let idx = hits[h];
            let start: usize = if idx >= context { idx - context } else { 0 };
            let end_raw = idx.saturating_add(context).saturating_add(1);
            let end: usize = if end_raw <= n { end_raw } else { n };
            proof {
                assert(hv.take(h + 1).drop_last() =~= hv.take(h as int));
                assert(hv.take(h + 1).last() == hv[h as int]);
            }
            let rl = ranges.len();
            if rl > 0 && start <= ranges[rl - 1].1 {
                let last = ranges[rl - 1];
                let new_end = if last.1 >= end { last.1 } else { end };
                ranges.set(rl - 1, (last.0, new_end));
            } else {
                ranges.push((start, end));
            }
            proof {
                let w = windows(hv.take(h + 1), context as nat, n as nat);
                assert forall|k: int| 0 <= k < ranges@.len() implies (ranges@[k].0 as nat, ranges@[k].1 as nat) == #[trigger] w[k] by {
                }
            }
            h = h + 1;
        }
        assert(hv.take(hv.len() as int) =~= hv);
        let ghost ws = windows(hv, context as nat, n as nat);
        let mut r: usize = 0;
        while r < ranges.len()
            invariant
                r <= ranges@.len(),
                ranges@.len() == ws.len(),
                n == lv.len(),
                lv == crate::text::views(ls@),
                forall|k: int| 0 <= k < ranges@.len() ==> (ranges@[k].0 as nat, ranges@[k].1 as nat) == #[trigger] ws[k],
                forall|k: int| 0 <= k < ranges@.len() ==> (#[trigger] ranges@[k]).0 <= ranges@[k].1 <= n,
                numbered_views(out@) == window_lines(lv, ws.take(r as int)),
            decreases ranges@.len() - r,
        {
            let (a, b) = ranges[r];
            let ghost base = numbered_views(out@);
            let mut k = a;
            while k < b
                invariant
                    a <= k <= b <= n,
                    n == lv.len(),
                    lv == crate::text::views(ls@),
                    numbered_views(out@) == base + Seq::new((k - a) as nat, |q: int| ((a + q + 1) as nat, lv[a + q])),
                decreases b - k,
            {
                let ghost before = numbered_views(out@);
                assert(lv[k as int] == ls@[k as int]@);
                out.push((k + 1, crate::text::string_of(ls[k].as_slice())));
                assert(numbered_views(out@) =~= before.push(((k + 1) as nat, lv[k as int])));
                assert(numbered_views(out@) =~= base + Seq::new((k + 1 - a) as nat, |q: int| ((a + q + 1) as nat, lv[a + q])));
                k = k + 1;
            }
            proof {
                assert(ws.take(r + 1).drop_last() =~= ws.take(r as int));
                assert(ws.take(r + 1).last() == ws[r as int]);
            }
            r = r + 1;
        }
        assert(ws.take(ws.len() as int) =~= ws);
        out
    }
}

proof fn lemma_hit_lines_bound(m: (Seq<char>, Option<Seq<Seq<char>>>, Option<Seq<char>>, Option<Seq<Seq<char>>>), ci: bool, ls: Seq<Seq<char>>, n: nat, k: int)
    requires
        0 <= k < hit_lines(m, ci, ls, n).len(),
    ensures
        hit_lines(m, ci, ls, n)[k] < n,
    decreases n,
{
    if n > 0 {
        let rest = hit_lines(m, ci, ls, (n - 1) as nat);
        if k < rest.len() {
            lemma_hit_lines_bound(m, ci, ls, (n - 1) as nat, k);
        }
    }
}

// ---------------------------------------------------------------------------
// Page order
// ---------------------------------------------------------------------------

/// What orders a matching page: its knowledge-area rank (areas first, in
/// their order), its score, and its relative path.
pub struct PageKey {
    pub rank: usize,
    pub score: MatchScore,
    pub path: String,
}

pub open spec fn key_view(k: PageKey) -> (nat, (nat, nat), Seq<char>) {
    (k.rank as nat, (k.score.phrase_hits as nat, k.score.token_hits as nat), k.path@)
}

/// `a` goes before `b`: lower rank, then higher score (phrase matches
/// first, then word matches), then path in string order.
pub open spec fn page_before(a: (nat, (nat, nat), Seq<char>), b: (nat, (nat, nat), Seq<char>)) -> bool {
    if a.0 != b.0 {
        a.0 < b.0
    } else if a.1 != b.1 {
        a.1.0 > b.1.0 || (a.1.0 == b.1.0 && a.1.1 > b.1.1)
    } else {
        lex_lt(a.2, b.2)
    }
}

proof fn lemma_page_total(a: (nat, (nat, nat), Seq<char>), b: (nat, (nat, nat), Seq<char>))
    requires
        a != b,
    ensures
        page_before(a, b) || page_before(b, a),
{
    if a.0 == b.0 && a.1 == b.1 {
        crate::text::lemma_lex_total(a.2, b.2);
    }
}

proof fn lemma_page_transitive(a: (nat, (nat, nat), Seq<char>), b: (nat, (nat, nat), Seq<char>), c: (nat, (nat, nat), Seq<char>))
    requires
        page_before(a, b),
        page_before(b, c),
    ensures
        page_before(a, c),
{
    if a.0 == b.0 && b.0 == c.0 && a.1 == b.1 && b.1 == c.1 {
        crate::text::lemma_lex_transitive(a.2, b.2, c.2);
    }
}

proof fn lemma_page_irreflexive(a: (nat, (nat, nat), Seq<char>))
    ensures
        !page_before(a, a),
{
    crate::text::lemma_lex_irreflexive(a.2);
}

/// The sort key of a page given by its path relative to the wiki root.
pub fn page_sort_key(relative: &str, score: MatchScore) -> (r: PageKey)
    ensures
        r.rank as nat == match crate::shared::area_of(relative@) {
            Some(i) => i,
            None => crate::shared::AREA_COUNT as int,
        },
        r.score == score,
        r.path@ == crate::shared::forward_slashes(relative@),
{
    let rank: usize = if crate::shared::path_in_area(chars_of(relative).as_slice(), "notes") {
        0
    } else if crate::shared::path_in_area(chars_of(relative).as_slice(), "ideas") {
        1
    } else if crate::shared::path_in_area(chars_of(relative).as_slice(), "projects") {
        2
    } else if crate::shared::path_in_area(chars_of(relative).as_slice(), "sdd") {
        3
    } else {
        crate::shared::AREA_COUNT
    };
    proof {
        reveal_strlit("notes");
        reveal_strlit("ideas");
        reveal_strlit("projects");
        reveal_strlit("sdd");
    }
    let path = crate::markdown::to_forward_slashes(chars_of(relative).as_slice());
    PageKey { rank, score, path: crate::text::string_of(path.as_slice()) }
}

fn page_less(a: &PageKey, b: &PageKey) -> (r: bool)
    ensures
        r == page_before(key_view(*a), key_view(*b)),
{
    if a.rank != b.rank {
        return a.rank < b.rank;
    }
    if a.score.phrase_hits != b.score.phrase_hits || a.score.token_hits != b.score.token_hits {
        return a.score.phrase_hits > b.score.phrase_hits
            || (a.score.phrase_hits == b.score.phrase_hits && a.score.token_hits > b.score.token_hits);
    }
    crate::text::chars_lt(chars_of(a.path.as_str()).as_slice(), chars_of(b.path.as_str()).as_slice())
}

/// The order in which matching pages are listed: a stable sort of the
/// page positions by their keys.
pub fn page_order(keys: &Vec<PageKey>) -> (r: Vec<usize>)
    ensures
        r@.len() == keys@.len(),
        forall|i: int| 0 <= i < r@.len() ==> (#[trigger] r@[i]) < keys@.len(),
        forall|i: int, j: int| 0 <= i < j < r@.len() ==> r@[i] != r@[j],
        forall|i: int, j: int| 0 <= i < j < r@.len() ==> !page_before(key_view(keys@[#[trigger] r@[j] as int]), key_view(keys@[#[trigger] r@[i] as int])),
        forall|i: int, j: int| 0 <= i < j < r@.len() && key_view(keys@[#[trigger] r@[i] as int]) == key_view(keys@[#[trigger] r@[j] as int]) ==> r@[i] < r@[j],
{
    let mut order: Vec<usize> = Vec::new();
    let mut k: usize = 0;
    while k < keys.len()
        invariant
            k <= keys@.len(),
            order@.len() == k,
            forall|i: int| 0 <= i < order@.len() ==> (#[trigger] order@[i]) < k,
            forall|i: int, j: int| 0 <= i < j < order@.len() ==> order@[i] != order@[j],
            forall|i: int, j: int| 0 <= i < j < order@.len() ==> !page_before(key_view(keys@[#[trigger] order@[j] as int]), key_view(keys@[#[trigger] order@[i] as int])),
            forall|i: int, j: int| 0 <= i < j < order@.len() && key_view(keys@[#[trigger] order@[i] as int]) == key_view(keys@[#[trigger] order@[j] as int]) ==> order@[i] < order@[j],
        decreases keys@.len() - k,
    {
        let mut p: usize = 0;
        while p < order.len() && !page_less(&keys[k], &keys[order[p]])
            invariant
                p <= order@.len(),
                k < keys@.len(),
                forall|i: int| 0 <= i < order@.len() ==> (#[trigger] order@[i]) < k,
                forall|q: int| 0 <= q < p ==> !page_before(key_view(keys@[k as int]), key_view(keys@[#[trigger] order@[q] as int])),
            decreases order@.len() - p,
        {
            p = p + 1;
        }
        let ghost old_order = order@;
        let ghost kv = key_view(keys@[k as int]);
        order.insert(p, k);
        proof {
            let no = order@;
            assert(no =~= old_order.insert(p as int, k));
            assert forall|i: int| 0 <= i < no.len() implies (#[trigger] no[i]) < k + 1 by {
                if i < p {
                    assert(no[i] == old_order[i]);
                } else if i > p {
                    assert(no[i] == old_order[i - 1]);
                }
            }
            assert forall|i: int, j: int| 0 <= i < j < no.len() implies no[i] != no[j] by {
                if i < p && j < p {
                    assert(no[i] == old_order[i] && no[j] == old_order[j]);
                } else if i < p && j == p {
                    assert(no[i] == old_order[i]);
                } else if i < p && j > p {
                    assert(no[i] == old_order[i] && no[j] == old_order[j - 1]);
                } else if i == p {
                    assert(no[j] == old_order[j - 1]);
                } else {
                    assert(no[i] == old_order[i - 1] && no[j] == old_order[j - 1]);
                }
            }
            assert forall|i: int, j: int| 0 <= i < j < no.len() implies
                !page_before(key_view(keys@[#[trigger] no[j] as int]), key_view(keys@[#[trigger] no[i] as int])) && (key_view(keys@[no[i] as int]) == key_view(keys@[no[j] as int]) ==> no[i] < no[j]) by {
                let ki = key_view(keys@[no[i] as int]);
                let kj = key_view(keys@[no[j] as int]);
                if i < p && j < p {
                    assert(no[i] == old_order[i] && no[j] == old_order[j]);
                } else if i < p && j == p {
                    assert(no[i] == old_order[i]);
                    assert(!page_before(kv, ki));
                } else if i < p && j > p {
                    assert(no[i] == old_order[i] && no[j] == old_order[j - 1]);
                } else if i == p {
                    assert(no[j] == old_order[j - 1]);
                    let kp = key_view(keys@[old_order[p as int] as int]);
                    assert(page_before(kv, kp));
                    if j - 1 > p {
                        assert(!page_before(kj, kp));
                        if kj != kp {
                            lemma_page_total(kj, kp);
                        }
                        if page_before(kp, kj) {
                            lemma_page_transitive(kv, kp, kj);
                        }
                    }
                    assert(page_before(kv, kj));
                    if page_before(kj, kv) {
                        lemma_page_transitive(kv, kj, kv);
                        lemma_page_irreflexive(kv);
                    }
                    if ki == kj {
                        lemma_page_irreflexive(kv);
                    }
                } else {
                    assert(no[i] == old_order[i - 1] && no[j] == old_order[j - 1]);
                }
            }
        }
        k = k + 1;
    }
    order
}

// ---------------------------------------------------------------------------
// Requests
// ---------------------------------------------------------------------------

/// Output mode of a search.
#[derive(Clone, Copy, PartialEq, Eq, Structural, Debug)]
pub enum SearchMode {
    /// Per-page headings with excerpts.
    Summary,
    /// Matching file paths only.
    Files,
    /// Matching lines with context.
    Content,
}

/// A search request.
pub struct SearchOptions {
    pub query: String,
    pub path: Option<String>,
    pub mode: SearchMode,
    pub case_insensitive: bool,
    pub regex: bool,
    pub per_file_limit: usize,
    pub head_limit: usize,
    pub category: Option<String>,
    pub context: usize,
}

/// Why a search failed.
pub enum SearchError {
    /// A caller-side problem: empty query, bad category, missing directory.
    Invalid(String),
    /// A filesystem error during the scan.
    Io(String),
}

impl SearchError {
    /// The error's message.
    pub fn message(&self) -> (r: String)
        ensures
            r@ == match self {
                SearchError::Invalid(m) => m@,
                SearchError::Io(m) => m@,
            },
    {
        match self {
            SearchError::Invalid(m) => m.clone(),
            SearchError::Io(m) => m.clone(),
        }
    }
}

/// Excerpts shown per page by default.
pub const DEFAULT_PER_FILE_LIMIT: usize = 5;
/// Pages listed by default.
pub const DEFAULT_HEAD_LIMIT: usize = 50;
/// Most excerpts shown per page.
pub const HARD_PER_FILE_LIMIT: usize = 50;
/// Most pages listed.
pub const HARD_HEAD_LIMIT: usize = 500;
/// Most pages scanned.
pub const HARD_PAGE_CAP: usize = 5000;
/// Longest excerpt, in characters.
pub const EXCERPT_CHAR_LIMIT: usize = 200;

/// The `Debug` rendering of a string: quoted, with escapes.
pub uninterp spec fn debug_quoted(s: Seq<char>) -> Seq<char>;

/// `<str as Debug>::fmt`: the string quoted with Rust escapes.
#[verifier::external_body]
fn debug_str(s: &str) -> (r: String)
    ensures
        r@ == debug_quoted(s@),
{
    format!("{s:?}")
}

/// A category escapes the wiki root: it contains `..` or starts with `/`
/// or `\`.
pub open spec fn bad_category(c: Seq<char>) -> bool {
    crate::text::contains_seq(c, ".."@) || (c.len() > 0 && (c[0] == '/' || c[0] == '\\'))
}

/// The problem with a request's query and category, if any.
pub open spec fn request_error(query: Seq<char>, category: Option<Seq<char>>) -> Option<Seq<char>> {
    if query.len() == 0 {
        Some(EMPTY_QUERY@)
    } else {
        match category {
            Some(c) => if bad_category(c) {
                Some("wiki search category must be a relative area or nested directory; got "@ + debug_quoted(c) + "."@)
            } else {
                None
            },
            None => None,
        }
    }
}

/// Checks a request's query and category.
pub fn check_request(options: &SearchOptions) -> (r: Result<(), SearchError>)
    ensures
        match request_error(options.query@, opt_text(options.category)) {
            Some(m) => r matches Err(e) && e is Invalid && e->Invalid_0@ == m,
            None => r is Ok,
        },
{
    if chars_of(options.query.as_str()).len() == 0 {
        return Err(SearchError::Invalid(String::from_str(EMPTY_QUERY)));
    }
    match &options.category {
        Some(c) => {
            let cv = chars_of(c.as_str());
            let bad = crate::text::contains_str(cv.as_slice(), "..") || (cv.len() > 0 && (cv[0] == '/' || cv[0] == '\\'));
            if bad {
                let mut m = String::from_str("wiki search category must be a relative area or nested directory; got ");
                m.append(debug_str(c.as_str()).as_str());
                m.append(".");
                return Err(SearchError::Invalid(m));
            }
            Ok(())
        },
        None => Ok(()),
    }
}

/// The per-page excerpt limit and the page limit of a request, clamped.
pub fn limits(options: &SearchOptions) -> (r: (usize, usize))
    ensures
        r.0 == if options.per_file_limit < 1 { 1 } else if options.per_file_limit > HARD_PER_FILE_LIMIT { HARD_PER_FILE_LIMIT } else { options.per_file_limit },
        r.1 == if options.head_limit < 1 { 1 } else if options.head_limit > HARD_HEAD_LIMIT { HARD_HEAD_LIMIT } else { options.head_limit },
{
    let per = if options.per_file_limit < 1 { 1 } else if options.per_file_limit > HARD_PER_FILE_LIMIT { HARD_PER_FILE_LIMIT } else { options.per_file_limit };
    let head = if options.head_limit < 1 { 1 } else if options.head_limit > HARD_HEAD_LIMIT { HARD_HEAD_LIMIT } else { options.head_limit };
    (per, head)
}

/// The message for an area or category directory that does not exist.
pub fn missing_area(display: &str) -> (r: SearchError)
    ensures
        r matches SearchError::Invalid(m) && m@ == "wiki search area or category directory does not exist: "@ + display@,
{
    let mut m = String::from_str("wiki search area or category directory does not exist: ");
    m.append(display);
    SearchError::Invalid(m)
}

/// The report when the searched directory holds no pages.
pub fn no_pages(display: &str) -> (r: String)
    ensures
        r@ == "(No markdown pages found under "@ + display@ + ".)\n"@,
{
    let mut m = String::from_str("(No markdown pages found under ");
    m.append(display);
    m.append(".)\n");
    m
}

// ---------------------------------------------------------------------------
// Reports
// ---------------------------------------------------------------------------

/// How a query was matched, as the header states it.
pub open spec fn match_kind(regex_mode: bool, ci: bool, tokens: Option<Seq<Seq<char>>>) -> Seq<char> {
    if !regex_mode && tokens is Some {
        "literal, unordered AND of "@ + crate::fmt::decimal(tokens->0.len()) + " token(s); exact phrase preferred: ["@
            + crate::text::join(tokens->0, ", "@) + "]"@
    } else {
        (if regex_mode { "regex"@ } else { "literal"@ }) + ", "@ + (if ci { "case-insensitive"@ } else { "case-sensitive"@ })
    }
}

/// The report header.
pub open spec fn header_text(title: Seq<char>, query: Seq<char>, regex_mode: bool, ci: bool, tokens: Option<Seq<Seq<char>>>) -> Seq<char> {
    "== "@ + title + ": \""@ + query + "\" ("@ + match_kind(regex_mode, ci, tokens) + ") ==\n"@
}

/// Renders the report header.
pub fn format_header(title: &str, query: &str, regex_mode: bool, case_insensitive: bool, tokens: Option<&Vec<String>>) -> (r: String)
    ensures
        r@ == header_text(title@, query@, regex_mode, case_insensitive, match tokens {
            Some(t) => Some(crate::text::str_views(t@)),
            None => None,
        }),
{
    let mut o = String::from_str("== ");
    o.append(title);
    o.append(": \"");
    o.append(query);
    o.append("\" (");
    match tokens {
        Some(t) if !regex_mode => {
            o.append("literal, unordered AND of ");
            crate::fmt::push_decimal(&mut o, t.len() as u64);
            o.append(" token(s); exact phrase preferred: [");
            crate::text::push_joined_strings(&mut o, t, ", ");
            o.append("]");
        },
        _ => {
            if regex_mode {
                o.append("regex");
            } else {
                o.append("literal");
            }
            o.append(", ");
            if case_insensitive {
                o.append("case-insensitive");
            } else {
                o.append("case-sensitive");
            }
        },
    }
    o.append(") ==\n");
    o
}

/// A page with its excerpts, listed in summary mode.
pub struct PageExcerpts {
    pub relative: String,
    pub excerpts: Vec<String>,
}

/// A page with its numbered lines, listed in content mode.
pub struct PageLines {
    pub relative: String,
    pub lines: Vec<(usize, String)>,
}

/// Number of excerpts of the pages, at most `usize::MAX`.
pub open spec fn occurrences(pages: Seq<PageExcerpts>) -> nat
    decreases pages.len(),
{
    if pages.len() == 0 {
        0
    } else {
        let s = occurrences(pages.drop_last()) + pages.last().excerpts@.len();
        if s > usize::MAX { usize::MAX as nat } else { s }
    }
}

/// The wiki link of a page: its relative path with forward slashes and no
/// trailing `.md`.
pub open spec fn page_link(relative: Seq<char>) -> Seq<char> {
    "[["@ + crate::markdown::drop_md(crate::shared::forward_slashes(relative)) + "]]"@
}

/// The excerpt lines of a page: `> ` and the excerpt, ended by a newline.
pub open spec fn quoted_excerpts(es: Seq<Seq<char>>) -> Seq<char>
    decreases es.len(),
{
    if es.len() == 0 {
        seq![]
    } else {
        let b = es.last();
        quoted_excerpts(es.drop_last()) + "> "@ + b + if b.len() > 0 && b.last() == '\n' { seq![] } else { seq!['\n'] }
    }
}

/// The block of one page in summary mode.
pub open spec fn page_block(p: PageExcerpts) -> Seq<char> {
    let rel = crate::shared::forward_slashes(p.relative@);
    "### "@ + page_link(p.relative@) + match crate::shared::area_of(rel) {
        Some(i) => " — "@ + crate::shared::area_label(i),
        None => seq![],
    } + "\n"@ + quoted_excerpts(crate::text::str_views(p.excerpts@)) + "\n"@
}

pub open spec fn page_blocks(ps: Seq<PageExcerpts>) -> Seq<char>
    decreases ps.len(),
{
    if ps.len() == 0 {
        seq![]
    } else {
        page_blocks(ps.drop_last()) + page_block(ps.last())
    }
}

/// The summary report of pages in listing order.
pub open spec fn summary_text(header: Seq<char>, head_limit: nat, pages: Seq<PageExcerpts>) -> Seq<char> {
    if pages.len() == 0 {
        header + "(No pages contain this term.)\n"@
    } else {
        let total = occurrences(pages);
        let shown: nat = if pages.len() <= head_limit { pages.len() } else { head_limit };
        header + "Found in "@ + crate::fmt::decimal(pages.len()) + " page(s); "@ + crate::fmt::decimal(total)
            + " total occurrence(s):\n\n"@ + page_blocks(pages.take(shown as int)) + (if pages.len() > head_limit {
            "(Partial: more than head_limit="@ + crate::fmt::decimal(head_limit)
                + " pages contained the term. Raise the limit or narrow with `category` or `query`.)\n"@
        } else {
            seq![]
        }) + "\n(Complete: "@ + crate::fmt::decimal(shown) + " page(s), "@ + crate::fmt::decimal(total) + " occurrence(s) shown.)\n"@
    }
}

fn page_block_text(p: &PageExcerpts) -> (r: String)
    ensures
        r@ == page_block(*p),
{
    let rel = crate::markdown::to_forward_slashes(chars_of(p.relative.as_str()).as_slice());
    let stem = crate::markdown::strip_md_suffixes(rel.as_slice());
    let mut o = String::from_str("### ");
    o.append("[[");
    crate::text::push_chars(&mut o, stem.as_slice());
    o.append("]]");
    let rel_s = crate::text::string_of(rel.as_slice());
    match crate::shared::knowledge_area_for_relative_path(rel_s.as_str()) {
        Some((name, _)) => {
            o.append(" — ");
            o.append(crate::shared::area_search_label(name));
        },
        None => {},
    }
    o.append("\n");
    let ghost head = o@;
    let ghost ev = crate::text::str_views(p.excerpts@);
    let mut i: usize = 0;
    while i < p.excerpts.len()
        invariant
            i <= p.excerpts@.len(),
            ev == crate::text::str_views(p.excerpts@),
            o@ == head + quoted_excerpts(ev.take(i as int)),
        decreases p.excerpts@.len() - i,
    {
        let b = &p.excerpts[i];
        o.append("> ");
        o.append(b.as_str());
        let bv = chars_of(b.as_str());
        if !(bv.len() > 0 && bv[bv.len() - 1] == '\n') {
            o.append("\n");
        }
        proof {
            reveal_strlit("\n");
            if bv@.len() > 0 {
                assert(bv@.last() == bv@[bv@.len() - 1]);
            }
            assert(ev.take(i + 1).drop_last() =~= ev.take(i as int));
            assert(ev.take(i + 1).last() == b@);
            assert(o@ =~= head + quoted_excerpts(ev.take(i + 1)));
        }
        i = i + 1;
    }
    assert(ev.take(ev.len() as int) =~= ev);
    o.append("\n");
    proof {
        reveal_strlit("notes");
        reveal_strlit("ideas");
        reveal_strlit("projects");
        reveal_strlit("sdd");
        match crate::shared::area_of(rel@) {
            Some(i) => {
                assert(crate::shared::search_label(crate::shared::area_name(i)) == crate::shared::area_label(i));
            },
            None => {},
        }
        assert(o@ =~= page_block(*p));
    }
    o
}

/// Renders the summary report.
pub fn format_summary(header: &str, head_limit: usize, pages: &Vec<PageExcerpts>) -> (r: String)
    ensures
        r@ == summary_text(header@, head_limit as nat, pages@),
{
    let mut o = String::from_str(header);
    if pages.len() == 0 {
        o.append("(No pages contain this term.)\n");
        return o;
    }
    let mut total: usize = 0;
    let mut t: usize = 0;
    while t < pages.len()
        invariant
            t <= pages@.len(),
            total == occurrences(pages@.take(t as int)),
        decreases pages@.len() - t,
    {
        proof {
            assert(pages@.take(t + 1).drop_last() =~= pages@.take(t as int));
        }
        total = total.saturating_add(pages[t].excerpts.len());
        t = t + 1;
    }
    assert(pages@.take(pages@.len() as int) =~= pages@);
    o.append("Found in ");
    crate::fmt::push_decimal(&mut o, pages.len() as u64);
    o.append(" page(s); ");
    crate::fmt::push_decimal(&mut o, total as u64);
    o.append(" total occurrence(s):\n\n");
    let shown: usize = if pages.len() <= head_limit { pages.len() } else { head_limit };
    let ghost head = o@;
    let mut i: usize = 0;
    while i < shown
        invariant
            i <= shown <= pages@.len(),
            o@ == head + page_blocks(pages@.take(i as int)),
        decreases shown - i,
    {
        let b = page_block_text(&pages[i]);
        o.append(b.as_str());
        proof {
            assert(pages@.take(i + 1).drop_last() =~= pages@.take(i as int));
        }
        i = i + 1;
    }
    if pages.len() > head_limit {
        o.append("(Partial: more than head_limit=");
        crate::fmt::push_decimal(&mut o, head_limit as u64);
        o.append(" pages contained the term. Raise the limit or narrow with `category` or `query`.)\n");
    }
    o.append("\n(Complete: ");
    crate::fmt::push_decimal(&mut o, shown as u64);
    o.append(" page(s), ");
    crate::fmt::push_decimal(&mut o, total as u64);
    o.append(" occurrence(s) shown.)\n");
    o
}

/// The files report: one relative path per line.
pub open spec fn files_text(rels: Seq<Seq<char>>) -> Seq<char>
    decreases rels.len(),
{
    if rels.len() == 0 {
        seq![]
    } else {
        files_text(rels.drop_last()) + crate::shared::forward_slashes(rels.last()) + "\n"@
    }
}

/// Renders the files report.
pub fn format_files(relatives: &Vec<String>) -> (r: String)
    ensures
        r@ == if relatives@.len() == 0 { "(No files matched.)\n"@ } else { files_text(crate::text::str_views(relatives@)) },
{
    if relatives.len() == 0 {
        return String::from_str("(No files matched.)\n");
    }
    let ghost rv = crate::text::str_views(relatives@);
    let mut o = String::new();
    let mut i: usize = 0;
    while i < relatives.len()
        invariant
            i <= relatives@.len(),
            rv == crate::text::str_views(relatives@),
            o@ == files_text(rv.take(i as int)),
        decreases relatives@.len() - i,
    {
        let f = crate::markdown::to_forward_slashes(chars_of(relatives[i].as_str()).as_slice());
        crate::text::push_chars(&mut o, f.as_slice());
        o.append("\n");
        proof {
            assert(rv.take(i + 1).drop_last() =~= rv.take(i as int));
            assert(rv.take(i + 1).last() == relatives@[i as int]@);
        }
        i = i + 1;
    }
    assert(rv.take(rv.len() as int) =~= rv);
    o
}

/// The numbered lines of a page: `{number}: {line}`.
pub open spec fn numbered_text(ls: Seq<(nat, Seq<char>)>) -> Seq<char>
    decreases ls.len(),
{
    if ls.len() == 0 {
        seq![]
    } else {
        numbered_text(ls.drop_last()) + crate::fmt::decimal(ls.last().0) + ": "@ + ls.last().1 + "\n"@
    }
}

/// The block of one file in content mode.
pub open spec fn file_block(p: PageLines) -> Seq<char> {
    "\n--- "@ + crate::shared::forward_slashes(p.relative@) + " ---\n"@ + numbered_text(numbered_views(p.lines@))
}

pub open spec fn file_blocks(ps: Seq<PageLines>) -> Seq<char>
    decreases ps.len(),
{
    if ps.len() == 0 {
        seq![]
    } else {
        file_blocks(ps.drop_last()) + file_block(ps.last())
    }
}

/// The content report of files in listing order.
pub open spec fn content_text(header: Seq<char>, head_limit: nat, files: Seq<PageLines>) -> Seq<char> {
    if files.len() == 0 {
        header + "(No matches.)\n"@
    } else if files.len() <= head_limit {
        header + file_blocks(files)
    } else {
        header + file_blocks(files.take(head_limit as int)) + "(Partial: more than head_limit="@
            + crate::fmt::decimal(head_limit) + " files contained the term.)\n"@
    }
}

fn file_block_text(p: &PageLines) -> (r: String)
    ensures
        r@ == file_block(*p),
{
    let mut o = String::from_str("\n--- ");
    let f = crate::markdown::to_forward_slashes(chars_of(p.relative.as_str()).as_slice());
    crate::text::push_chars(&mut o, f.as_slice());
    o.append(" ---\n");
    let ghost head = o@;
    let ghost lv = numbered_views(p.lines@);
    let mut i: usize = 0;
    while i < p.lines.len()
        invariant
            i <= p.lines@.len(),
            lv == numbered_views(p.lines@),
            o@ == head + numbered_text(lv.take(i as int)),
        decreases p.lines@.len() - i,
    {
        crate::fmt::push_decimal(&mut o, p.lines[i].0 as u64);
        o.append(": ");
        o.append(p.lines[i].1.as_str());
        o.append("\n");
        proof {
            assert(lv.take(i + 1).drop_last() =~= lv.take(i as int));
            assert(o@ =~= head + numbered_text(lv.take(i + 1)));
        }
        i = i + 1;
    }
    assert(lv.take(lv.len() as int) =~= lv);
    o
}

/// Renders the content report.
pub fn format_content(header: &str, head_limit: usize, files: &Vec<PageLines>) -> (r: String)
    ensures
        r@ == content_text(header@, head_limit as nat, files@),
{
    let mut o = String::from_str(header);
    if files.len() == 0 {
        o.append("(No matches.)\n");
        return o;
    }
    let shown: usize = if files.len() <= head_limit { files.len() } else { head_limit };
    let ghost head = o@;
    let mut i: usize = 0;
    while i < shown
        invariant
            i <= shown <= files@.len(),
            o@ == head + file_blocks(files@.take(i as int)),
        decreases shown - i,
    {
        let b = file_block_text(&files[i]);
        o.append(b.as_str());
        proof {
            assert(files@.take(i + 1).drop_last() =~= files@.take(i as int));
        }
        i = i + 1;
    }
    if files.len() > head_limit {
        o.append("(Partial: more than head_limit=");
        crate::fmt::push_decimal(&mut o, head_limit as u64);
        o.append(" files contained the term.)\n");
    } else {
        assert(files@.take(files@.len() as int) =~= files@);
    }
    o
}

/// The texts of `pages` that match, by relative path, in page order.
pub open spec fn matching_relatives(m: (Seq<char>, Option<Seq<Seq<char>>>, Option<Seq<char>>, Option<Seq<Seq<char>>>), ci: bool, pages: Seq<(Seq<char>, Seq<char>)>) -> Seq<Seq<char>>
    decreases pages.len(),
{
    if pages.len() == 0 {
        seq![]
    } else {
        let rest = matching_relatives(m, ci, pages.drop_last());
        if matcher_matches(m, ci, pages.last().1) { rest.push(pages.last().0) } else { rest }
    }
}

pub open spec fn page_text_views(pages: Seq<(String, String)>) -> Seq<(Seq<char>, Seq<char>)> {
    Seq::new(pages.len(), |i: int| (pages[i].0@, pages[i].1@))
}

/// Files mode: the relative paths of the pages whose text matches, in page
/// order, stopping once `head_limit` are listed (at least one).
pub fn matching_files(matcher: &Matcher, pages: &Vec<(String, String)>, head_limit: usize) -> (r: Vec<String>)
    ensures
        ({
            let all = matching_relatives(matcher_view(*matcher), matcher.case_insensitive, page_text_views(pages@));
            let cap: int = if head_limit == 0 { 1 } else { head_limit as int };
            crate::text::str_views(r@) == all.take(if all.len() < cap { all.len() as int } else { cap })
        }),
{
    let ghost pv = page_text_views(pages@);
    let ghost mv = matcher_view(*matcher);
    let ghost ci = matcher.case_insensitive;
    let mut hits: Vec<String> = Vec::new();
    let mut i: usize = 0;
    assert(pv.take(0) =~= Seq::<(Seq<char>, Seq<char>)>::empty());
    assert(pv.take(pv.len() as int) =~= pv);
    let ghost all = matching_relatives(mv, ci, pv);
    assert(all.take(all.len() as int) =~= all);
    while i < pages.len()
        invariant_except_break
            crate::text::str_views(hits@) == matching_relatives(mv, ci, pv.take(i as int)),
            hits@.len() < (if head_limit == 0 { 1 } else { head_limit as int }),
        invariant
            i <= pages@.len(),
            pv == page_text_views(pages@),
            mv == matcher_view(*matcher),
            ci == matcher.case_insensitive,
            pv.take(pv.len() as int) == pv,
            all == matching_relatives(mv, ci, pv),
            all.take(all.len() as int) == all,
        ensures
            ({
                let cap: int = if head_limit == 0 { 1 } else { head_limit as int };
                crate::text::str_views(hits@) == all.take(if all.len() < cap { all.len() as int } else { cap })
            }),
        decreases pages@.len() - i,
    {
        proof {
            assert(pv.take(i + 1).drop_last() =~= pv.take(i as int));
            assert(pv.take(i + 1).last() == pv[i as int]);
            lemma_matching_prefix(mv, ci, pv, i as int + 1);
        }
        if matcher.is_match(pages[i].1.as_str()) {
            hits.push(pages[i].0.clone());
            proof {
                assert(crate::text::str_views(hits@) =~= matching_relatives(mv, ci, pv.take(i + 1)));
            }
            if hits.len() >= head_limit {
                i = i + 1;
                break;
            }
        }
        i = i + 1;
        proof {
            if i == pages@.len() {
                assert(pv.take(i as int) =~= pv);
            }
        }
    }
    hits
}

proof fn lemma_matching_prefix(m: (Seq<char>, Option<Seq<Seq<char>>>, Option<Seq<char>>, Option<Seq<Seq<char>>>), ci: bool, pv: Seq<(Seq<char>, Seq<char>)>, k: int)
    requires
        0 <= k <= pv.len(),
    ensures
        matching_relatives(m, ci, pv).take(matching_relatives(m, ci, pv.take(k)).len() as int) == matching_relatives(m, ci, pv.take(k)),
        matching_relatives(m, ci, pv.take(k)).len() <= matching_relatives(m, ci, pv).len(),
    decreases pv.len() - k,
{
    if k < pv.len() {
        lemma_matching_prefix(m, ci, pv, k + 1);
        assert(pv.take(k + 1).drop_last() =~= pv.take(k));
        let a = matching_relatives(m, ci, pv.take(k));
        let b = matching_relatives(m, ci, pv.take(k + 1));
        let all = matching_relatives(m, ci, pv);
        assert(b.take(a.len() as int) =~= a);
        assert(all.take(a.len() as int) =~= b.take(a.len() as int));
    } else {
        assert(pv.take(k) =~= pv);
        let all = matching_relatives(m, ci, pv);
        assert(all.take(all.len() as int) =~= all);
    }
}

/// `slots` picked in the order of `order`.
pub open spec fn arranged<T>(slots: Seq<T>, order: Seq<usize>) -> Seq<T> {
    Seq::new(order.len(), |k: int| slots[order[k] as int])
}

/// `order` lists the pages of `keys` once each, best first: by rank, then
/// score, then path, equal keys in their given order.
pub open spec fn orders_pages(keys: Seq<PageKey>, order: Seq<usize>) -> bool {
    &&& order.len() == keys.len()
    &&& forall|i: int| 0 <= i < order.len() ==> (#[trigger] order[i]) < keys.len()
    &&& forall|i: int, j: int| 0 <= i < j < order.len() ==> order[i] != order[j]
    &&& forall|i: int, j: int| 0 <= i < j < order.len() ==> !page_before(key_view(keys[#[trigger] order[j] as int]), key_view(keys[#[trigger] order[i] as int]))
    &&& forall|i: int, j: int| 0 <= i < j < order.len() && key_view(keys[#[trigger] order[i] as int]) == key_view(keys[#[trigger] order[j] as int]) ==> order[i] < order[j]
}

fn arrange<T>(slots: Vec<T>, order: &Vec<usize>) -> (r: Vec<T>)
    requires
        forall|k: int| 0 <= k < order@.len() ==> (#[trigger] order@[k]) < slots@.len(),
        forall|i: int, j: int| 0 <= i < j < order@.len() ==> order@[i] != order@[j],
    ensures
        r@ == arranged(slots@, order@),
{
    let ghost sv = slots@;
    let n = slots.len();
    let mut rest = slots;
    let mut opts: Vec<Option<T>> = Vec::new();
    while rest.len() > 0
        invariant
            rest@.len() + opts@.len() == n,
            n == sv.len(),
            rest@ == sv.take(rest@.len() as int),
            forall|j: int| 0 <= j < opts@.len() ==> opts@[j] == Some(sv[n - 1 - j]),
        decreases rest@.len(),
    {
        let x = rest.pop();
        match x {
            Some(v) => {
                opts.push(Some(v));
            },
            None => {},
        }
    }
    let mut out: Vec<T> = Vec::new();
    let mut k: usize = 0;
    while k < order.len()
        invariant
            k <= order@.len(),
            n == sv.len(),
            opts@.len() == n,
            forall|q: int| 0 <= q < order@.len() ==> (#[trigger] order@[q]) < n,
            forall|a: int, b: int| 0 <= a < b < order@.len() ==> order@[a] != order@[b],
            forall|j: int| 0 <= j < n ==> (#[trigger] opts@[n - 1 - j]) == if exists|q: int| 0 <= q < k && order@[q] == j {
                None
            } else {
                Some(sv[j])
            },
            out@ == arranged(sv, order@).take(k as int),
        decreases order@.len() - k,
    {
        let j = order[k];
        let pos = n - 1 - j;
        opts.push(None);
        let x = opts.swap_remove(pos);
        proof {
            assert(!exists|q: int| 0 <= q < k && order@[q] == j as int);
            assert(x == Some(sv[j as int]));
            assert forall|t: int| 0 <= t < n implies (#[trigger] opts@[n - 1 - t]) == if exists|q: int| 0 <= q < k + 1 && order@[q] == t {
                None
            } else {
                Some(sv[t])
            } by {
                if t == j {
                    assert(order@[k as int] == t);
                } else {
                    if exists|q: int| 0 <= q < k + 1 && order@[q] == t {
                        let q = choose|q: int| 0 <= q < k + 1 && order@[q] == t;
                        assert(q < k);
                    }
                }
            }
        }
        match x {
            Some(v) => {
                out.push(v);
            },
            None => {},
        }
        proof {
            assert(out@ =~= arranged(sv, order@).take(k + 1));
        }
        k = k + 1;
    }
    assert(arranged(sv, order@).take(order@.len() as int) =~= arranged(sv, order@));
    out
}

/// The pages' slots in page order: best rank first, then higher score, then
/// path, pages with equal keys in their given order.
pub fn ordered_pages<T>(keys: &Vec<PageKey>, slots: Vec<T>) -> (r: Vec<T>)
    requires
        keys@.len() == slots@.len(),
    ensures
        exists|order: Seq<usize>| orders_pages(keys@, order) && r@ == arranged(slots@, order),
{
    let order = page_order(keys);
    let r = arrange(slots, &order);
    assert(orders_pages(keys@, order@));
    r
}

} // verus!

