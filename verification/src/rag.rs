//! Query analysis and context budgets for graph-aware retrieval: the runs
//! and ranked fallback terms of a query, the full-text query string, the
//! page ids and excerpts of hits, and the bounded evidence context.

use vstd::prelude::*;
use crate::text::{
    chars_equal_str, chars_of, is_ascii_alnum, is_ascii_digit, lex_lt, lemma_lex_asymmetric,
    lemma_lex_irreflexive, lemma_lex_total, lemma_lex_transitive, push_char, slice_chars, str_views,
    string_of, views,
};
use crate::unicode::{is_uppercase, to_lowercase, unicode_lowercase, unicode_uppercase};

verus! {

/// Why retrieval failed.
pub enum RagError {
    Invalid(String),
    Database(String),
}

/// The message of a retrieval error.
pub open spec fn rag_error_text(e: RagError) -> Seq<char> {
    match e {
        RagError::Invalid(m) => m@,
        RagError::Database(m) => m@,
    }
}

impl RagError {
    /// The error's message.
    pub fn message(&self) -> (r: String)
        ensures
            r@ == rag_error_text(*self),
    {
        match self {
            RagError::Invalid(m) => m.clone(),
            RagError::Database(m) => m.clone(),
        }
    }
}

/// Most fallback terms a query yields.
pub const MAX_QUERY_FALLBACK_TERMS: usize = 8;

/// CJK unified ideographs and their extensions and compatibility forms.
pub open spec fn is_cjk_spec(c: char) -> bool {
    let u = c as u32;
    ||| 0x3400 <= u <= 0x4DBF
    ||| 0x4E00 <= u <= 0x9FFF
    ||| 0xF900 <= u <= 0xFAFF
    ||| 0x20000 <= u <= 0x2FA1F
}

/// Whether `c` is a CJK ideograph.
pub fn is_cjk(c: char) -> (r: bool)
    ensures
        r == is_cjk_spec(c),
{
    ('\u{3400}' <= c && c <= '\u{4DBF}') || ('\u{4E00}' <= c && c <= '\u{9FFF}')
        || ('\u{F900}' <= c && c <= '\u{FAFF}') || ('\u{20000}' <= c && c <= '\u{2FA1F}')
}

/// The two kinds of query runs.
#[derive(Clone, Copy, PartialEq, Eq, Structural, Debug)]
pub enum RunKind {
    /// ASCII letters, digits, `_` and `-`.
    Ascii,
    /// CJK ideographs.
    Cjk,
}

/// The run kind a character belongs to, if any.
pub open spec fn run_kind(c: char) -> Option<RunKind> {
    if is_ascii_alnum(c) || c == '_' || c == '-' {
        Some(RunKind::Ascii)
    } else if is_cjk_spec(c) {
        Some(RunKind::Cjk)
    } else {
        None
    }
}

fn kind_of(c: char) -> (r: Option<RunKind>)
    ensures
        r == run_kind(c),
{
    if ('a' <= c && c <= 'z') || ('A' <= c && c <= 'Z') || ('0' <= c && c <= '9') || c == '_' || c == '-' {
        Some(RunKind::Ascii)
    } else if is_cjk(c) {
        Some(RunKind::Cjk)
    } else {
        None
    }
}

/// The finished runs, the run being read and its kind.
pub open spec fn runs_after(s: Seq<char>) -> (Seq<Seq<char>>, Seq<char>, Option<RunKind>)
    decreases s.len(),
{
    if s.len() == 0 {
        (seq![], seq![], None)
    } else {
        let st = runs_after(s.drop_last());
        let c = s.last();
        let flushed = if st.1.len() > 0 { st.0.push(st.1) } else { st.0 };
        match run_kind(c) {
            Some(k) => if st.2 == Some(k) {
                (st.0, st.1.push(c), st.2)
            } else {
                (flushed, seq![c], Some(k))
            },
            None => (flushed, seq![], None),
        }
    }
}

/// The maximal runs of one kind in a query, in order.
pub open spec fn query_runs_of(s: Seq<char>) -> Seq<Seq<char>> {
    let st = runs_after(s);
    if st.1.len() > 0 {
        st.0.push(st.1)
    } else {
        st.0
    }
}

/// The maximal runs of ASCII word characters and of CJK ideographs.
pub fn query_runs(value: &str) -> (r: Vec<String>)
    ensures
        str_views(r@) == query_runs_of(value@),
{
    let v = chars_of(value);
    let mut runs: Vec<String> = Vec::new();
    let mut current: Vec<char> = Vec::new();
    let mut kind: Option<RunKind> = None;
    let mut i: usize = 0;
    while i < v.len()
        invariant
            i <= v@.len(),
            v@ == value@,
            runs_after(v@.take(i as int)) == (str_views(runs@), current@, kind),
        decreases v@.len() - i,
    {
        let c = v[i];
        proof {
            assert(v@.take(i + 1).drop_last() =~= v@.take(i as int));
        }
        let ghost rv = str_views(runs@);
        match kind_of(c) {
            Some(k) => {
                if kind == Some(k) {
                    current.push(c);
                } else {
                    if current.len() > 0 {
                        runs.push(string_of(current.as_slice()));
                        assert(str_views(runs@) =~= rv.push(current@));
                    }
                    current = Vec::new();
                    current.push(c);
                    kind = Some(k);
                    assert(current@ =~= seq![c]);
                }
            },
            None => {
                if current.len() > 0 {
                    runs.push(string_of(current.as_slice()));
                    assert(str_views(runs@) =~= rv.push(current@));
                }
                current = Vec::new();
                kind = None;
            },
        }
        i = i + 1;
    }
    assert(v@.take(v@.len() as int) =~= v@);
    if current.len() > 0 {
        let ghost rv = str_views(runs@);
        runs.push(string_of(current.as_slice()));
        assert(str_views(runs@) =~= rv.push(current@));
    }
    runs
}

// ---------------------------------------------------------------------------
// Ranked fallback terms
// ---------------------------------------------------------------------------

/// English words that carry no search content.
pub open spec fn is_english_stopword(s: Seq<char>) -> bool {
    ||| s == "a"@ ||| s == "an"@ ||| s == "and"@ ||| s == "are"@ ||| s == "about"@
    ||| s == "can"@ ||| s == "could"@ ||| s == "does"@ ||| s == "for"@ ||| s == "how"@
    ||| s == "i"@ ||| s == "is"@ ||| s == "me"@ ||| s == "of"@ ||| s == "on"@
    ||| s == "or"@ ||| s == "please"@ ||| s == "tell"@ ||| s == "the"@ ||| s == "to"@
    ||| s == "what"@ ||| s == "when"@ ||| s == "where"@ ||| s == "which"@ ||| s == "who"@
    ||| s == "why"@ ||| s == "will"@ ||| s == "would"@
}

/// Chinese words that carry no search content.
pub open spec fn is_cjk_stopword(s: Seq<char>) -> bool {
    ||| s == "请"@ ||| s == "分析"@ ||| s == "如何"@ ||| s == "怎么"@ ||| s == "怎样"@
    ||| s == "什么"@ ||| s == "是否"@ ||| s == "以及"@ ||| s == "并且"@ ||| s == "的"@
    ||| s == "了"@ ||| s == "吗"@ ||| s == "呢"@
}

/// A CJK n-gram that is a stopword, starts with a request or question
/// word, or ends with a particle.
pub open spec fn cjk_noise(t: Seq<char>) -> bool {
    ||| is_cjk_stopword(t)
    ||| crate::text::has_prefix(t, "请"@)
    ||| crate::text::has_prefix(t, "如何"@)
    ||| crate::text::has_prefix(t, "怎么"@)
    ||| crate::text::has_prefix(t, "怎样"@)
    ||| crate::text::has_prefix(t, "是否"@)
    ||| (t.len() > 0 && (t.last() == '的' || t.last() == '了' || t.last() == '吗' || t.last() == '呢' || t.last() == '并'))
}

fn english_stopword(v: &[char]) -> (r: bool)
    ensures
        r == is_english_stopword(v@),
{
    chars_equal_str(v, "a") || chars_equal_str(v, "an") || chars_equal_str(v, "and") || chars_equal_str(v, "are")
        || chars_equal_str(v, "about") || chars_equal_str(v, "can") || chars_equal_str(v, "could")
        || chars_equal_str(v, "does") || chars_equal_str(v, "for") || chars_equal_str(v, "how")
        || chars_equal_str(v, "i") || chars_equal_str(v, "is") || chars_equal_str(v, "me")
        || chars_equal_str(v, "of") || chars_equal_str(v, "on") || chars_equal_str(v, "or")
        || chars_equal_str(v, "please") || chars_equal_str(v, "tell") || chars_equal_str(v, "the")
        || chars_equal_str(v, "to") || chars_equal_str(v, "what") || chars_equal_str(v, "when")
        || chars_equal_str(v, "where") || chars_equal_str(v, "which") || chars_equal_str(v, "who")
        || chars_equal_str(v, "why") || chars_equal_str(v, "will") || chars_equal_str(v, "would")
}

fn cjk_stopword(v: &[char]) -> (r: bool)
    ensures
        r == is_cjk_stopword(v@),
{
    chars_equal_str(v, "请") || chars_equal_str(v, "分析") || chars_equal_str(v, "如何")
        || chars_equal_str(v, "怎么") || chars_equal_str(v, "怎样") || chars_equal_str(v, "什么")
        || chars_equal_str(v, "是否") || chars_equal_str(v, "以及") || chars_equal_str(v, "并且")
        || chars_equal_str(v, "的") || chars_equal_str(v, "了") || chars_equal_str(v, "吗")
        || chars_equal_str(v, "呢")
}

fn starts_with_str(v: &[char], p: &str) -> (r: bool)
    ensures
        r == crate::text::has_prefix(v@, p@),
{
    let pv = chars_of(p);
    crate::text::starts_with(v, pv.as_slice())
}

/// Whether a CJK n-gram is noise.
pub fn cjk_term_is_noise(t: &[char]) -> (r: bool)
    ensures
        r == cjk_noise(t@),
{
    let last_particle = t.len() > 0 && {
        let c = t[t.len() - 1];
        c == '的' || c == '了' || c == '吗' || c == '呢' || c == '并'
    };
    cjk_stopword(t) || starts_with_str(t, "请") || starts_with_str(t, "如何") || starts_with_str(t, "怎么")
        || starts_with_str(t, "怎样") || starts_with_str(t, "是否") || last_particle
}

/// Terms with their scores.
pub open spec fn scored_views(s: Seq<(String, u128)>) -> Seq<(Seq<char>, nat)> {
    Seq::new(s.len(), |i: int| (s[i].0@, s[i].1 as nat))
}

/// Index of the entry for `t`, or the count.
pub open spec fn find_term(terms: Seq<(Seq<char>, nat)>, t: Seq<char>) -> nat
    decreases terms.len(),
{
    if terms.len() == 0 {
        0
    } else if terms[0].0 == t {
        0
    } else {
        1 + find_term(terms.drop_first(), t)
    }
}

proof fn lemma_find_term(terms: Seq<(Seq<char>, nat)>, t: Seq<char>, k: int)
    requires
        0 <= k <= terms.len(),
        forall|j: int| 0 <= j < k ==> terms[j].0 != t,
        k == terms.len() || terms[k].0 == t,
    ensures
        find_term(terms, t) == k,
    decreases k,
{
    if k > 0 {
        lemma_find_term(terms.drop_first(), t, k - 1);
    }
}

/// `terms` with `t` scored: its score raised to `score` if present, else
/// appended.
pub open spec fn with_scored(terms: Seq<(Seq<char>, nat)>, t: Seq<char>, score: nat) -> Seq<(Seq<char>, nat)> {
    let i = find_term(terms, t);
    if i < terms.len() {
        terms.update(i as int, (t, if terms[i as int].1 >= score { terms[i as int].1 } else { score }))
    } else {
        terms.push((t, score))
    }
}

/// Scores `term`, keeping the higher score of a repeated term.
pub fn push_scored_term(terms: &mut Vec<(String, u128)>, term: String, score: u128)
    ensures
        scored_views(final(terms)@) == with_scored(scored_views(old(terms)@), term@, score as nat),
{
    let ghost sv = scored_views(terms@);
    let mut i: usize = 0;
    while i < terms.len()
        invariant
            i <= terms@.len(),
            sv == scored_views(terms@),
            sv == scored_views(old(terms)@),
            forall|j: int| 0 <= j < i ==> sv[j].0 != term@,
        decreases terms@.len() - i,
    {
        if crate::text::chars_equal_str(chars_of(terms[i].0.as_str()).as_slice(), term.as_str()) {
            proof {
                lemma_find_term(sv, term@, i as int);
            }
            let old_score = terms[i].1;
            let best = if old_score >= score { old_score } else { score };
            terms.set(i, (term, best));
            assert(scored_views(terms@) =~= with_scored(sv, term@, score as nat));
            return;
        }
        i = i + 1;
    }
    proof {
        lemma_find_term(sv, term@, i as int);
    }
    terms.push((term, score));
    assert(scored_views(terms@) =~= with_scored(sv, term@, score as nat));
}

/// Every character is ASCII.
pub open spec fn all_ascii(cs: Seq<char>) -> bool {
    forall|i: int| 0 <= i < cs.len() ==> crate::text::is_ascii(#[trigger] cs[i])
}

/// Every character is a CJK ideograph.
pub open spec fn all_cjk(cs: Seq<char>) -> bool {
    forall|i: int| 0 <= i < cs.len() ==> is_cjk_spec(#[trigger] cs[i])
}

/// The n-grams of width `w` at the first `n` start positions, scored
/// `200 + w` unless they are noise.
pub open spec fn ngram_terms(acc: Seq<(Seq<char>, nat)>, cs: Seq<char>, w: nat, n: nat) -> Seq<(Seq<char>, nat)>
    decreases n,
{
    if n == 0 {
        acc
    } else {
        let prev = ngram_terms(acc, cs, w, (n - 1) as nat);
        let t = cs.subrange(n - 1, n - 1 + w);
        if cjk_noise(t) {
            prev
        } else {
            with_scored(prev, t, 200 + w)
        }
    }
}

/// The n-grams of width `w` at every start position.
pub open spec fn width_terms(acc: Seq<(Seq<char>, nat)>, cs: Seq<char>, w: nat) -> Seq<(Seq<char>, nat)> {
    if cs.len() >= w {
        ngram_terms(acc, cs, w, (cs.len() - w + 1) as nat)
    } else {
        acc
    }
}

/// The terms one run adds: an ASCII run that is no stopword and is long,
/// structured or capitalised, lower-cased and scored `1000 + length`; a CJK
/// run of two to eight ideographs that is no stopword, scored
/// `220 + length`, then its non-noise 4-, 3- and 2-grams.
pub open spec fn run_terms(acc: Seq<(Seq<char>, nat)>, raw: Seq<char>) -> Seq<(Seq<char>, nat)> {
    if all_ascii(raw) {
        let lower = unicode_lowercase(raw);
        if is_english_stopword(lower) || !(raw.len() >= 3 || crate::ask::has_ascii_structure(raw) || crate::ask::has_uppercase(raw)) {
            acc
        } else {
            with_scored(acc, lower, 1000 + raw.len())
        }
    } else if all_cjk(raw) {
        let a1 = if 2 <= raw.len() <= 8 && !is_cjk_stopword(raw) {
            with_scored(acc, unicode_lowercase(raw), 220 + raw.len())
        } else {
            acc
        };
        width_terms(width_terms(width_terms(a1, raw, 4), raw, 3), raw, 2)
    } else {
        acc
    }
}

/// The scored terms of a sequence of runs.
pub open spec fn scored_terms(runs: Seq<Seq<char>>) -> Seq<(Seq<char>, nat)>
    decreases runs.len(),
{
    if runs.len() == 0 {
        seq![]
    } else {
        run_terms(scored_terms(runs.drop_last()), runs.last())
    }
}

fn all_ascii_chars(v: &[char]) -> (r: bool)
    ensures
        r == all_ascii(v@),
{
    let mut i: usize = 0;
    while i < v.len()
        invariant
            i <= v@.len(),
            forall|j: int| 0 <= j < i ==> crate::text::is_ascii(#[trigger] v@[j]),
        decreases v@.len() - i,
    {
        if (v[i] as u32) >= 128 {
            return false;
        }
        i = i + 1;
    }
    true
}

fn all_cjk_chars(v: &[char]) -> (r: bool)
    ensures
        r == all_cjk(v@),
{
    let mut i: usize = 0;
    while i < v.len()
        invariant
            i <= v@.len(),
            forall|j: int| 0 <= j < i ==> is_cjk_spec(#[trigger] v@[j]),
        decreases v@.len() - i,
    {
        if !is_cjk(v[i]) {
            return false;
        }
        i = i + 1;
    }
    true
}

/// Adds the n-grams of width `w`.
fn push_width_terms(scored: &mut Vec<(String, u128)>, cs: &Vec<char>, w: usize)
    requires
        2 <= w <= 4,
    ensures
        scored_views(final(scored)@) == width_terms(scored_views(old(scored)@), cs@, w as nat),
{
    if cs.len() < w {
        return;
    }
    let ghost acc = scored_views(scored@);
    let n = cs.len() - w + 1;
    let mut start: usize = 0;
    while start < n
        invariant
            start <= n,
            n == cs@.len() - w + 1,
            2 <= w <= 4,
            w <= cs@.len(),
            cs@.len() == cs.len(),
            scored_views(scored@) == ngram_terms(acc, cs@, w as nat, start as nat),
        decreases n - start,
    {
        let t = slice_chars(cs.as_slice(), start, start + w);
        if !cjk_term_is_noise(t.as_slice()) {
            push_scored_term(scored, string_of(t.as_slice()), (200 + w) as u128);
        }
        start = start + 1;
    }
}

/// Adds the terms of one run.
fn push_run_terms(scored: &mut Vec<(String, u128)>, raw: &String)
    ensures
        scored_views(final(scored)@) == run_terms(scored_views(old(scored)@), raw@),
{
    let cs = chars_of(raw.as_str());
    if all_ascii_chars(cs.as_slice()) {
        let lower = to_lowercase(raw.as_str());
        if english_stopword(chars_of(lower.as_str()).as_slice()) {
            return;
        }
        let structured = crate::ask::any_ascii_structure(cs.as_slice());
        if cs.len() >= 3 || structured || crate::ask::any_uppercase(cs.as_slice()) {
            push_scored_term(scored, lower, 1000 + cs.len() as u128);
        }
        return;
    }
    if all_cjk_chars(cs.as_slice()) {
        if cs.len() >= 2 && cs.len() <= 8 && !cjk_stopword(cs.as_slice()) {
            push_scored_term(scored, to_lowercase(raw.as_str()), 220 + cs.len() as u128);
        }
        push_width_terms(scored, &cs, 4);
        push_width_terms(scored, &cs, 3);
        push_width_terms(scored, &cs, 2);
    }
}

/// Higher score first, then longer term, then string order.
pub open spec fn ranked_before(a: (Seq<char>, nat), b: (Seq<char>, nat)) -> bool {
    if a.1 != b.1 {
        a.1 > b.1
    } else if a.0.len() != b.0.len() {
        a.0.len() > b.0.len()
    } else {
        lex_lt(a.0, b.0)
    }
}

/// Strictly in rank order.
pub open spec fn is_ranked(s: Seq<(Seq<char>, nat)>) -> bool {
    forall|i: int, j: int| 0 <= i < j < s.len() ==> ranked_before(#[trigger] s[i], #[trigger] s[j])
}

/// The terms of scored entries.
pub open spec fn term_texts(s: Seq<(Seq<char>, nat)>) -> Seq<Seq<char>> {
    Seq::new(s.len(), |i: int| s[i].0)
}

proof fn lemma_ranked_transitive(a: (Seq<char>, nat), b: (Seq<char>, nat), c: (Seq<char>, nat))
    requires
        ranked_before(a, b),
        ranked_before(b, c),
    ensures
        ranked_before(a, c),
{
    if a.1 == b.1 && b.1 == c.1 && a.0.len() == b.0.len() && b.0.len() == c.0.len() {
        lemma_lex_transitive(a.0, b.0, c.0);
    }
}

proof fn lemma_ranked_total(a: (Seq<char>, nat), b: (Seq<char>, nat))
    requires
        a != b,
    ensures
        ranked_before(a, b) || ranked_before(b, a),
{
    if a.1 == b.1 && a.0.len() == b.0.len() {
        if a.0 == b.0 {
            assert(a == b);
        }
        lemma_lex_total(a.0, b.0);
    }
}

proof fn lemma_ranked_irreflexive(a: (Seq<char>, nat))
    ensures
        !ranked_before(a, a),
{
    lemma_lex_irreflexive(a.0);
}

fn rank_less(a: &(String, u128), b: &(String, u128)) -> (r: bool)
    ensures
        r == ranked_before((a.0@, a.1 as nat), (b.0@, b.1 as nat)),
{
    if a.1 != b.1 {
        return a.1 > b.1;
    }
    let ac = chars_of(a.0.as_str());
    let bc = chars_of(b.0.as_str());
    if ac.len() != bc.len() {
        return ac.len() > bc.len();
    }
    crate::text::chars_lt(ac.as_slice(), bc.as_slice())
}

/// Inserts an entry into entries in rank order, unless it is there.
fn insert_ranked(v: &mut Vec<(String, u128)>, x: (String, u128))
    requires
        is_ranked(scored_views(old(v)@)),
    ensures
        is_ranked(scored_views(final(v)@)),
        scored_views(final(v)@).to_set() == scored_views(old(v)@).to_set().insert((x.0@, x.1 as nat)),
{
    let mut p: usize = 0;
    while p < v.len() && rank_less(&v[p], &x)
        invariant
            p <= v@.len(),
            forall|j: int| 0 <= j < p ==> ranked_before(#[trigger] scored_views(v@)[j], (x.0@, x.1 as nat)),
        decreases v@.len() - p,
    {
        p = p + 1;
    }
    let ghost old_views = scored_views(v@);
    let ghost xv = (x.0@, x.1 as nat);
    if p < v.len() && !rank_less(&x, &v[p]) {
        proof {
            if old_views[p as int] != xv {
                lemma_ranked_total(old_views[p as int], xv);
            }
            assert(old_views.to_set() =~= old_views.to_set().insert(xv));
        }
        return;
    }
    proof {
        if p < old_views.len() {
            if old_views[p as int] != xv {
                lemma_ranked_total(old_views[p as int], xv);
            } else {
                lemma_ranked_irreflexive(xv);
            }
        }
    }
    v.insert(p, x);
    proof {
        let nv = scored_views(v@);
        assert(nv =~= old_views.insert(p as int, xv));
        assert forall|i: int, j: int| 0 <= i < j < nv.len() implies ranked_before(#[trigger] nv[i], #[trigger] nv[j]) by {
            if j < p {
                assert(nv[i] == old_views[i] && nv[j] == old_views[j]);
            } else if j == p {
                assert(nv[i] == old_views[i]);
            } else if i == p {
                assert(nv[j] == old_views[j - 1]);
                if j - 1 > p {
                    lemma_ranked_transitive(xv, old_views[p as int], old_views[j - 1]);
                }
            } else if i < p {
                assert(nv[i] == old_views[i] && nv[j] == old_views[j - 1]);
                if j - 1 >= p {
                    lemma_ranked_transitive(old_views[i], xv, old_views[p as int]);
                    if j - 1 > p {
                        lemma_ranked_transitive(old_views[i], old_views[p as int], old_views[j - 1]);
                    }
                }
            } else {
                assert(nv[i] == old_views[i - 1] && nv[j] == old_views[j - 1]);
            }
        }
        assert(nv.to_set() =~= old_views.to_set().insert(xv)) by {
            assert forall|e| nv.to_set().contains(e) implies old_views.to_set().insert(xv).contains(e) by {
                let k = choose|k: int| 0 <= k < nv.len() && nv[k] == e;
                if k < p {
                    assert(old_views[k] == e);
                } else if k > p {
                    assert(old_views[k - 1] == e);
                }
            }
            assert forall|e| old_views.to_set().insert(xv).contains(e) implies nv.to_set().contains(e) by {
                if e == xv {
                    assert(nv[p as int] == e);
                } else {
                    let k = choose|k: int| 0 <= k < old_views.len() && old_views[k] == e;
                    if k < p {
                        assert(nv[k] == e);
                    } else {
                        assert(nv[k + 1] == e);
                    }
                }
            }
        }
    }
}

pub proof fn lemma_take_push_set<A>(s: Seq<A>, k: int)
    requires
        0 <= k < s.len(),
    ensures
        s.take(k + 1).to_set() == s.take(k).to_set().insert(s[k]),
{
    let a = s.take(k + 1);
    let b = s.take(k);
    assert forall|e: A| a.to_set().contains(e) implies b.to_set().insert(s[k]).contains(e) by {
        let m = choose|m: int| 0 <= m < a.len() && a[m] == e;
        if m < k {
            assert(b[m] == e);
        }
    }
    assert forall|e: A| b.to_set().insert(s[k]).contains(e) implies a.to_set().contains(e) by {
        if e == s[k] {
            assert(a[k] == e);
        } else {
            let m = choose|m: int| 0 <= m < b.len() && b[m] == e;
            assert(a[m] == e);
        }
    }
    assert(a.to_set() =~= b.to_set().insert(s[k]));
}

/// The fallback search terms of a query: its ASCII identifiers and CJK
/// words and n-grams, scored, ranked by score, length and string order,
/// the best eight.
pub fn query_terms(value: &str) -> (r: Vec<String>)
    ensures
        exists|order: Seq<(Seq<char>, nat)>| {
            &&& is_ranked(order)
            &&& order.to_set() == scored_terms(query_runs_of(value@)).to_set()
            &&& str_views(r@) == term_texts(order.take(
                if order.len() < MAX_QUERY_FALLBACK_TERMS { order.len() as int } else { MAX_QUERY_FALLBACK_TERMS as int },
            ))
        },
{
    let runs = query_runs(value);
    let mut scored: Vec<(String, u128)> = Vec::new();
    let mut i: usize = 0;
    while i < runs.len()
        invariant
            i <= runs@.len(),
            str_views(runs@) == query_runs_of(value@),
            scored_views(scored@) == scored_terms(str_views(runs@).take(i as int)),
        decreases runs@.len() - i,
    {
        proof {
            let t = str_views(runs@).take(i + 1);
            assert(t.drop_last() =~= str_views(runs@).take(i as int));
            assert(t.last() == runs@[i as int]@);
        }
        push_run_terms(&mut scored, &runs[i]);
        i = i + 1;
    }
    assert(str_views(runs@).take(runs@.len() as int) =~= str_views(runs@));
    let ghost all = scored_views(scored@);
    let mut order: Vec<(String, u128)> = Vec::new();
    let mut k: usize = 0;
    proof {
        assert(scored_views(order@).to_set() =~= Set::empty());
    }
    while k < scored.len()
        invariant
            k <= scored@.len(),
            all == scored_views(scored@),
            is_ranked(scored_views(order@)),
            scored_views(order@).to_set() == all.take(k as int).to_set(),
        decreases scored@.len() - k,
    {
        let entry = (string_of(chars_of(scored[k].0.as_str()).as_slice()), scored[k].1);
        insert_ranked(&mut order, entry);
        proof {
            assert(all.take(k + 1) =~= all.take(k as int).push(all[k as int]));
            lemma_take_push_set(all, k as int);
        }
        k = k + 1;
    }
    assert(all.take(all.len() as int) =~= all);
    let n: usize = if order.len() < MAX_QUERY_FALLBACK_TERMS { order.len() } else { MAX_QUERY_FALLBACK_TERMS };
    let mut r: Vec<String> = Vec::new();
    let mut j: usize = 0;
    while j < n
        invariant
            j <= n <= order@.len(),
            str_views(r@) == term_texts(scored_views(order@).take(j as int)),
        decreases n - j,
    {
        let ghost before = str_views(r@);
        r.push(string_of(chars_of(order[j].0.as_str()).as_slice()));
        proof {
            assert(str_views(r@) =~= before.push(order@[j as int].0@));
            assert(term_texts(scored_views(order@).take(j + 1)) =~= term_texts(scored_views(order@).take(j as int)).push(order@[j as int].0@));
        }
        j = j + 1;
    }
    r
}

// ---------------------------------------------------------------------------
// Full-text queries, page ids and excerpts
// ---------------------------------------------------------------------------

/// `t` with every `"` doubled.
pub open spec fn quotes_doubled(t: Seq<char>) -> Seq<char>
    decreases t.len(),
{
    if t.len() == 0 {
        seq![]
    } else {
        quotes_doubled(t.drop_last()) + if t.last() == '"' { seq!['"', '"'] } else { seq![t.last()] }
    }
}

/// A word as a quoted full-text phrase.
pub open spec fn fts_phrase(t: Seq<char>) -> Seq<char> {
    seq!['"'] + quotes_doubled(t) + seq!['"']
}

/// The full-text query of a search: each whitespace-separated word as a
/// quoted phrase, joined by ` AND `.
pub open spec fn fts_query_of(q: Seq<char>) -> Seq<char> {
    let ws = crate::ask::words(q);
    crate::text::join(Seq::new(ws.len(), |i: int| fts_phrase(ws[i])), " AND "@)
}

/// The full-text query for `query`.
pub fn build_fts_query(query: &str) -> (r: String)
    ensures
        r@ == fts_query_of(query@),
{
    let v = chars_of(query);
    let pieces = crate::text::split_chars(v.as_slice(), crate::text::Sep::Space);
    let ghost ws = crate::ask::words(query@);
    let mut phrases: Vec<Vec<char>> = Vec::new();
    let mut i: usize = 0;
    while i < pieces.len()
        invariant
            i <= pieces@.len(),
            v@ == query@,
            views(pieces@) == crate::text::split_by(v@, crate::text::Sep::Space),
            views(phrases@) == ({
                let w = crate::ask::drop_empty(views(pieces@).take(i as int));
                Seq::new(w.len(), |k: int| fts_phrase(w[k]))
            }),
        decreases pieces@.len() - i,
    {
        proof {
            let t = views(pieces@).take(i + 1);
            assert(t.drop_last() =~= views(pieces@).take(i as int));
            assert(t.last() == pieces@[i as int]@);
        }
        if pieces[i].len() > 0 {
            let ghost before = views(phrases@);
            let piece = &pieces[i];
            let mut ph: Vec<char> = Vec::new();
            ph.push('"');
            let mut j: usize = 0;
            while j < piece.len()
                invariant
                    j <= piece@.len(),
                    ph@ == seq!['"'] + quotes_doubled(piece@.take(j as int)),
                decreases piece@.len() - j,
            {
                proof {
                    assert(piece@.take(j + 1).drop_last() =~= piece@.take(j as int));
                }
                if piece[j] == '"' {
                    ph.push('"');
                    ph.push('"');
                } else {
                    ph.push(piece[j]);
                }
                assert(ph@ =~= seq!['"'] + quotes_doubled(piece@.take(j + 1)));
                j = j + 1;
            }
            assert(piece@.take(piece@.len() as int) =~= piece@);
            ph.push('"');
            assert(ph@ =~= fts_phrase(piece@));
            phrases.push(ph);
            proof {
                let w0 = crate::ask::drop_empty(views(pieces@).take(i as int));
                let w1 = crate::ask::drop_empty(views(pieces@).take(i + 1));
                assert(w1 =~= w0.push(piece@));
                assert(views(phrases@) =~= before.push(fts_phrase(piece@)));
                assert(views(phrases@) =~= Seq::new(w1.len(), |k: int| fts_phrase(w1[k])));
            }
        }
        i = i + 1;
    }
    assert(views(pieces@).take(pieces@.len() as int) =~= views(pieces@));
    let mut r = String::new();
    crate::text::push_joined(&mut r, &phrases, " AND ");
    assert(r@ =~= fts_query_of(query@));
    r
}

/// The page id of a path in retrieval: trimmed, forward slashes, no
/// leading `./`, and one trailing `.md` (in any case) dropped.
pub open spec fn page_id(value: Seq<char>) -> Seq<char> {
    let f = crate::markdown::skip_dot_slashes(crate::shared::forward_slashes(crate::text::trim(value)));
    if f.len() >= 3 && crate::text::ascii_lower_seq(f).skip(f.len() - 3) == ".md"@ {
        f.take(f.len() - 3)
    } else {
        f
    }
}

/// The page id of a path.
pub fn canonical_path(value: &str) -> (r: String)
    ensures
        r@ == page_id(value@),
{
    let t = crate::text::trim_chars(chars_of(value).as_slice());
    let f = crate::markdown::to_forward_slashes(t.as_slice());
    let d = crate::markdown::strip_dot_slashes(f.as_slice());
    let lower = crate::text::ascii_lowercase(d.as_slice());
    let md = chars_of(".md");
    proof {
        reveal_strlit(".md");
    }
    if crate::text::ends_with(lower.as_slice(), md.as_slice()) {
        let cut = slice_chars(d.as_slice(), 0, d.len() - 3);
        assert(cut@ =~= d@.take(d@.len() - 3));
        string_of(cut.as_slice())
    } else {
        string_of(d.as_slice())
    }
}

/// Longest excerpt of a hit, in characters.
pub const EXCERPT_CHARS: usize = 360;

/// The excerpt of a chunk: its non-blank lines, trimmed and joined by
/// spaces, cut to `EXCERPT_CHARS` with a `...` marker.
pub open spec fn excerpt_of(text: Seq<char>) -> Seq<char> {
    crate::text::truncated_text(
        crate::text::join(crate::ask::trimmed_nonempty(crate::text::lines(text)), " "@),
        EXCERPT_CHARS as nat,
    )
}

/// The excerpt of a chunk's text.
pub fn make_excerpt(text: &str) -> (r: String)
    ensures
        r@ == excerpt_of(text@),
{
    let ls = crate::text::split_lines(chars_of(text).as_slice());
    let mut kept: Vec<Vec<char>> = Vec::new();
    let mut i: usize = 0;
    while i < ls.len()
        invariant
            i <= ls@.len(),
            views(ls@) == crate::text::lines(text@),
            views(kept@) == crate::ask::trimmed_nonempty(views(ls@).take(i as int)),
        decreases ls@.len() - i,
    {
        proof {
            let t = views(ls@).take(i + 1);
            assert(t.drop_last() =~= views(ls@).take(i as int));
            assert(t.last() == ls@[i as int]@);
        }
        let t = crate::text::trim_chars(ls[i].as_slice());
        if t.len() > 0 {
            let ghost before = views(kept@);
            kept.push(t);
            assert(views(kept@) =~= before.push(crate::text::trim(ls@[i as int]@)));
        }
        i = i + 1;
    }
    assert(views(ls@).take(ls@.len() as int) =~= views(ls@));
    let mut one = String::new();
    crate::text::push_joined(&mut one, &kept, " ");
    assert(one@ =~= crate::text::join(views(kept@), " "@));
    crate::text::truncate_text(one.as_str(), EXCERPT_CHARS)
}

// ---------------------------------------------------------------------------
// Context budgets
// ---------------------------------------------------------------------------

/// Upper bound of a context's character budget.
pub const MAX_CONTEXT_CHARS: usize = 50000;

/// The context text, how many blocks it holds and whether it was cut.
pub struct ContextSelection {
    pub text: String,
    pub selected: usize,
    pub truncated: bool,
}

/// Appends whole blocks while they fit in `max` characters; the first that
/// does not fit is cut to the room left, if any, and ends the context.
pub open spec fn context_fill(acc: Seq<char>, blocks: Seq<Seq<char>>, max: nat) -> (Seq<char>, nat, bool)
    decreases blocks.len(),
{
    if blocks.len() == 0 {
        (acc, 0, false)
    } else if acc.len() + blocks[0].len() <= max {
        let rest = context_fill(acc + blocks[0], blocks.drop_first(), max);
        (rest.0, rest.1 + 1, rest.2)
    } else if acc.len() < max {
        (acc + crate::text::budget_truncated(blocks[0], (max - acc.len()) as nat), 1, true)
    } else {
        (acc, 0, true)
    }
}

/// A context budget clamped to `1..=MAX_CONTEXT_CHARS`.
pub open spec fn context_budget(max_chars: nat) -> nat {
    if max_chars < 1 {
        1
    } else if max_chars > MAX_CONTEXT_CHARS {
        MAX_CONTEXT_CHARS as nat
    } else {
        max_chars
    }
}

/// The context made of rendered evidence blocks within a budget.
pub fn select_context(blocks: &Vec<String>, max_chars: usize) -> (r: ContextSelection)
    ensures
        ({
            let f = context_fill(seq![], str_views(blocks@), context_budget(max_chars as nat));
            &&& r.selected == f.1
            &&& r.truncated == f.2
            &&& r.text@ == if f.0.len() > context_budget(max_chars as nat) {
                crate::text::budget_truncated(f.0, context_budget(max_chars as nat))
            } else {
                f.0
            }
        }),
{
    let m: usize = if max_chars < 1 { 1 } else if max_chars > MAX_CONTEXT_CHARS { MAX_CONTEXT_CHARS } else { max_chars };
    let ghost bv = str_views(blocks@);
    let mut text = String::new();
    let mut selected: usize = 0;
    let mut truncated = false;
    let mut i: usize = 0;
    assert(bv.skip(0) =~= bv);
    while i < blocks.len()
        invariant_except_break
            !truncated,
            selected <= i,
        invariant
            i <= blocks@.len(),
            bv == str_views(blocks@),
            m <= MAX_CONTEXT_CHARS,
            text@.len() <= m,
            ({
                let rest = context_fill(text@, bv.skip(i as int), m as nat);
                context_fill(seq![], bv, m as nat) == (rest.0, (rest.1 + selected) as nat, rest.2)
            }),
        ensures
            context_fill(seq![], bv, m as nat) == (text@, selected as nat, truncated),
        decreases blocks@.len() - i,
    {
        let block = &blocks[i];
        let cur = crate::text::char_count(text.as_str());
        let bl = crate::text::char_count(block.as_str());
        proof {
            assert(bv.skip(i as int)[0] == block@);
            assert(bv.skip(i as int).drop_first() =~= bv.skip(i + 1));
        }
        if bl <= m - cur {
            text.append(block.as_str());
            selected = selected + 1;
            i = i + 1;
        } else {
            let remaining = m - cur;
            if remaining > 0 {
                let cut = crate::text::truncate_to_budget(block.as_str(), remaining);
                text.append(cut.as_str());
                selected = selected + 1;
            }
            truncated = true;
            break;
        }
    }
    proof {
        if !truncated {
            assert(bv.skip(i as int).len() == 0);
        }
    }
    if crate::text::char_count(text.as_str()) > m {
        text = crate::text::truncate_to_budget(text.as_str(), m);
    }
    ContextSelection { text, selected, truncated }
}

/// Characters in all blocks together.
pub open spec fn total_chars(blocks: Seq<Seq<char>>) -> nat
    decreases blocks.len(),
{
    if blocks.len() == 0 {
        0
    } else {
        blocks[0].len() + total_chars(blocks.drop_first())
    }
}

proof fn lemma_context_fill(acc: Seq<char>, blocks: Seq<Seq<char>>, max: nat)
    requires
        acc.len() <= max,
    ensures
        ({
            let f = context_fill(acc, blocks, max);
            &&& f.0.len() <= max
            &&& f.1 <= blocks.len()
            &&& f.2 <==> acc.len() + total_chars(blocks) > max
            &&& !f.2 ==> f.1 == blocks.len()
            &&& (blocks.len() > 0 && acc.len() < max) ==> f.1 >= 1
        }),
    decreases blocks.len(),
{
    if blocks.len() > 0 {
        if acc.len() + blocks[0].len() <= max {
            lemma_context_fill(acc + blocks[0], blocks.drop_first(), max);
        } else if acc.len() < max {
            let b = crate::text::budget_truncated(blocks[0], (max - acc.len()) as nat);
            assert(b.len() <= max - acc.len());
        }
    }
}

/// The context of the hits is bounded: its text fits the clamped budget,
/// it is cut exactly when all blocks together exceed the budget, it keeps
/// every hit when not cut, and it keeps at least one hit when there is one.
pub proof fn context_within_budget(blocks: Seq<Seq<char>>, max_chars: nat)
    ensures
        ({
            let m = context_budget(max_chars);
            let f = context_fill(seq![], blocks, m);
            &&& f.0.len() <= m
            &&& f.1 <= blocks.len()
            &&& f.2 <==> total_chars(blocks) > m
            &&& !f.2 ==> f.1 == blocks.len()
            &&& blocks.len() > 0 ==> f.1 >= 1
        }),
{
    lemma_context_fill(seq![], blocks, context_budget(max_chars));
}

/// A bounded evidence context: its text, the hits it draws on and whether
/// it was cut.
pub struct BoundedContext<T> {
    pub text: String,
    pub hits: Vec<T>,
    pub truncated: bool,
}

/// The context of `hits`, each rendered as the block of the same position:
/// the text `select_context` chooses, and the hits whose blocks it used, a
/// prefix of `hits`.
pub fn bounded_context<T>(hits: Vec<T>, blocks: &Vec<String>, max_chars: usize) -> (r: BoundedContext<T>)
    requires
        hits@.len() == blocks@.len(),
    ensures
        ({
            let m = context_budget(max_chars as nat);
            let f = context_fill(seq![], str_views(blocks@), m);
            &&& r.text@ == f.0
            &&& r.truncated == f.2
            &&& r.hits@ == hits@.take(f.1 as int)
            &&& r.text@.len() <= m
            &&& r.truncated <==> total_chars(str_views(blocks@)) > m
            &&& !r.truncated ==> r.hits@ == hits@
        }),
{
    proof {
        context_within_budget(str_views(blocks@), max_chars as nat);
    }
    let selection = select_context(blocks, max_chars);
    let mut kept = hits;
    kept.truncate(selection.selected);
    proof {
        assert(hits@.take(hits@.len() as int) =~= hits@);
    }
    BoundedContext { text: selection.text, hits: kept, truncated: selection.truncated }
}

/// The context report.
pub open spec fn context_text(query: Seq<char>, selected: nat, truncated: bool, text: Seq<char>) -> Seq<char> {
    "== Graph-RAG context ==\nQuery: "@ + query + "\nSources: "@ + crate::fmt::decimal(selected) + "\nTruncated: "@
        + (if truncated { "true"@ } else { "false"@ }) + "\n\n"@ + text
}

/// Renders the context report.
pub fn format_context_text(query: &str, context: &ContextSelection) -> (r: String)
    ensures
        r@ == context_text(query@, context.selected as nat, context.truncated, context.text@),
{
    let mut o = String::new();
    o.append("== Graph-RAG context ==\nQuery: ");
    o.append(query);
    o.append("\nSources: ");
    crate::fmt::push_decimal(&mut o, context.selected as u64);
    o.append("\nTruncated: ");
    if context.truncated {
        o.append("true");
    } else {
        o.append("false");
    }
    o.append("\n\n");
    o.append(context.text.as_str());
    o
}

/// Context characters a context or answer uses unless told otherwise.
pub const DEFAULT_CONTEXT_CHARS: usize = 8000;

/// Most hits a search returns.
pub const MAX_LIMIT: usize = 100;

/// Most direct chunks a search recalls before ranking.
pub const MAX_RECALL: usize = 500;

/// Deepest page-link expansion.
pub const MAX_PAGE_DEPTH: usize = 8;

/// The bounds of one search: hits returned, page-link depth, and chunks
/// recalled per retrieval path.
pub struct SearchBounds {
    pub limit: usize,
    pub depth: usize,
    pub recall: usize,
}

pub open spec fn clamp(x: int, lo: int, hi: int) -> int {
    if x < lo { lo } else if x > hi { hi } else { x }
}

/// The trimmed query of a search, or why it is refused.
pub fn search_query(query: &str) -> (r: Result<String, RagError>)
    ensures
        crate::text::trim(query@).len() == 0 ==> (r matches Err(RagError::Invalid(m))
            && m@ == "wiki rag search query must be a non-empty string."@),
        crate::text::trim(query@).len() > 0 ==> (r matches Ok(q) && q@ == crate::text::trim(query@)),
{
    let t = crate::text::trim_chars(chars_of(query).as_slice());
    if t.len() == 0 {
        Err(RagError::Invalid(String::from_str("wiki rag search query must be a non-empty string.")))
    } else {
        Ok(string_of(t.as_slice()))
    }
}

/// The bounds of a search asked for `limit` hits and `depth` link levels:
/// the limit clamped to `1..=100`, the depth capped at 8, and eight
/// chunks recalled per hit asked (saturating), clamped to `20..=500`.
pub fn search_bounds(limit: usize, depth: usize) -> (r: SearchBounds)
    ensures
        r.limit == clamp(limit as int, 1, MAX_LIMIT as int),
        r.depth == if depth < MAX_PAGE_DEPTH { depth } else { MAX_PAGE_DEPTH },
        r.recall == clamp(if limit * 8 <= usize::MAX { limit * 8 } else { usize::MAX as int }, 20, MAX_RECALL as int),
{
    let l = if limit < 1 { 1 } else if limit > MAX_LIMIT { MAX_LIMIT } else { limit };
    let d = if depth < MAX_PAGE_DEPTH { depth } else { MAX_PAGE_DEPTH };
    let wide: usize = if limit <= usize::MAX / 8 { limit * 8 } else { usize::MAX };
    let recall = if wide < 20 { 20 } else if wide > MAX_RECALL { MAX_RECALL } else { wide };
    SearchBounds { limit: l, depth: d, recall }
}

} // verus!
