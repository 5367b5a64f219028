//! Embedding settings: which embedding a search uses and the description
//! of the built-in hash embedding.

use vstd::prelude::*;
use crate::digest::{sha256, sha256_of, utf8, utf8_bytes};
use crate::text::{chars_of, chars_lt, chars_equal, lex_lt, str_views, string_of};
use crate::unicode::{
    char_to_lowercase, is_alphanumeric, is_lowercase, is_numeric, is_uppercase, unicode_alphanumeric,
    unicode_char_lowercase, unicode_lowercase_char, unicode_numeric, unicode_uppercase,
};

verus! {

/// Width of the built-in hash embedding.
pub const HASH_EMBEDDING_DIMENSIONS: usize = 384;

/// Which embedding a search adds to lexical and graph retrieval.
#[derive(Clone, Copy, PartialEq, Eq, Structural, Debug)]
pub enum EmbeddingMode {
    /// No vector retrieval.
    Off,
    /// The built-in token n-gram hash embedding.
    Hash,
}

/// What produced a vector: provider, model and width.
pub struct EmbeddingDescriptor {
    pub provider: String,
    pub model: String,
    pub dimensions: usize,
}

/// Why an embedding could not be produced.
pub struct EmbeddingError(pub String);

/// The built-in embedding that hashes tokens and character n-grams.
pub struct HashEmbeddingProvider;

impl HashEmbeddingProvider {
    /// The description stored with its vectors.
    pub fn descriptor(&self) -> (r: EmbeddingDescriptor)
        ensures
            r.provider@ == "local-hash"@,
            r.model@ == "token-ngram-v1"@,
            r.dimensions == HASH_EMBEDDING_DIMENSIONS,
    {
        EmbeddingDescriptor {
            provider: String::from_str("local-hash"),
            model: String::from_str("token-ngram-v1"),
            dimensions: HASH_EMBEDDING_DIMENSIONS,
        }
    }
}

/// Whether a search in this mode adds vector retrieval.
pub fn uses_embeddings(mode: EmbeddingMode) -> (r: bool)
    ensures
        r == (mode == EmbeddingMode::Hash),
{
    match mode {
        EmbeddingMode::Off => false,
        EmbeddingMode::Hash => true,
    }
}

/// The tokens collected so far, the token being built, and whether the
/// last character was lowercase or numeric.
pub type TokenState = (Seq<Seq<char>>, Seq<char>, bool);

/// `tokens` with `current` appended when it is not empty.
pub open spec fn flushed(tokens: Seq<Seq<char>>, current: Seq<char>) -> Seq<Seq<char>> {
    if current.len() > 0 { tokens.push(current) } else { tokens }
}

/// A token character: alphanumeric, `_` or `-`.
pub open spec fn token_char(c: char) -> bool {
    unicode_alphanumeric(c) || c == '_' || c == '-'
}

/// One character of tokenization: other characters end the token; an
/// uppercase letter after a lowercase letter or digit starts a new one;
/// token characters are added lowercased.
pub open spec fn token_step(st: TokenState, c: char) -> TokenState {
    if !token_char(c) {
        (flushed(st.0, st.1), seq![], false)
    } else {
        let split = unicode_uppercase(c) && st.2 && st.1.len() > 0;
        let toks = if split { st.0.push(st.1) } else { st.0 };
        let cur = if split { seq![] } else { st.1 };
        (toks, cur + unicode_char_lowercase(c), unicode_lowercase_char(c) || unicode_numeric(c))
    }
}

/// The tokenizer's state after `s`.
pub open spec fn token_state(s: Seq<char>) -> TokenState
    decreases s.len(),
{
    if s.len() == 0 {
        (seq![], seq![], false)
    } else {
        token_step(token_state(s.drop_last()), s.last())
    }
}

/// The lowercased word tokens of a text, split at camel-case boundaries.
pub open spec fn tokens_of(s: Seq<char>) -> Seq<Seq<char>> {
    flushed(token_state(s).0, token_state(s).1)
}

/// Splits a text into lowercased word tokens.
pub fn tokenize(input: &str) -> (r: Vec<String>)
    ensures
        str_views(r@) == tokens_of(input@),
{
    let cs = chars_of(input);
    let mut tokens: Vec<String> = Vec::new();
    let mut current = String::new();
    let mut prev = false;
    let mut i: usize = 0;
    while i < cs.len()
        invariant
            i <= cs@.len(),
            cs@ == input@,
            (str_views(tokens@), current@, prev) == token_state(cs@.take(i as int)),
        decreases cs@.len() - i,
    {
        let c = cs[i];
        proof {
            assert(cs@.take(i + 1).drop_last() =~= cs@.take(i as int));
            assert(cs@.take(i + 1).last() == c);
        }
        let accepted = is_alphanumeric(c) || c == '_' || c == '-';
        if !accepted {
            if current.as_str().unicode_len() > 0 {
                let ghost before = str_views(tokens@);
                tokens.push(current);
                assert(str_views(tokens@) =~= before.push(current@));
            }
            current = String::new();
            prev = false;
        } else {
            if is_uppercase(c) && prev && current.as_str().unicode_len() > 0 {
                let ghost before = str_views(tokens@);
                tokens.push(current);
                assert(str_views(tokens@) =~= before.push(current@));
                current = String::new();
            }
            prev = is_lowercase(c) || is_numeric(c);
            let lower = char_to_lowercase(c);
            current.append(lower.as_str());
        }
        i = i + 1;
    }
    assert(cs@.take(cs@.len() as int) =~= cs@);
    if current.as_str().unicode_len() > 0 {
        let ghost before = str_views(tokens@);
        tokens.push(current);
        assert(str_views(tokens@) =~= before.push(current@));
    }
    tokens
}

/// The `n` first windows of `w` characters of `cs`, each after `prefix`.
pub open spec fn windows_of(cs: Seq<char>, w: nat, prefix: Seq<char>, n: nat) -> Seq<Seq<char>>
    decreases n,
{
    if n == 0 {
        seq![]
    } else {
        windows_of(cs, w, prefix, (n - 1) as nat).push(prefix + cs.subrange(n - 1, n - 1 + w))
    }
}

/// The features of one token: the token itself, then its character pairs,
/// then its character triples.
pub open spec fn token_features(t: Seq<char>) -> Seq<Seq<char>> {
    seq!["token:"@ + t] + (if t.len() >= 2 { windows_of(t, 2, "ngram:2:"@, (t.len() - 1) as nat) } else { seq![] }) + (
    if t.len() >= 3 {
        windows_of(t, 3, "ngram:3:"@, (t.len() - 2) as nat)
    } else {
        seq![]
    })
}

/// The features of a list of tokens, in order, with repeats.
pub open spec fn all_features(toks: Seq<Seq<char>>) -> Seq<Seq<char>>
    decreases toks.len(),
{
    if toks.len() == 0 {
        seq![]
    } else {
        all_features(toks.drop_last()) + token_features(toks.last())
    }
}

/// How often `f` occurs in `fs`.
pub open spec fn count_in(fs: Seq<Seq<char>>, f: Seq<char>) -> nat
    decreases fs.len(),
{
    if fs.len() == 0 {
        0
    } else {
        count_in(fs.drop_last(), f) + if fs.last() == f { 1nat } else { 0nat }
    }
}

pub open spec fn count_views(v: Seq<(String, usize)>) -> Seq<(Seq<char>, nat)> {
    Seq::new(v.len(), |i: int| (v[i].0@, v[i].1 as nat))
}

/// `c` lists each distinct feature of `fs` once with its number of
/// occurrences, in string order.
pub open spec fn counted(fs: Seq<Seq<char>>, c: Seq<(Seq<char>, nat)>) -> bool {
    &&& forall|i: int, j: int| 0 <= i < j < c.len() ==> lex_lt((#[trigger] c[i]).0, (#[trigger] c[j]).0)
    &&& forall|i: int| 0 <= i < c.len() ==> (#[trigger] c[i]).1 == count_in(fs, c[i].0) && c[i].1 > 0
    &&& forall|f: Seq<char>| count_in(fs, f) > 0 ==> exists|i: int| 0 <= i < c.len() && (#[trigger] c[i]).0 == f
}

proof fn lemma_count_bound(fs: Seq<Seq<char>>, f: Seq<char>)
    ensures
        count_in(fs, f) <= fs.len(),
    decreases fs.len(),
{
    if fs.len() > 0 {
        lemma_count_bound(fs.drop_last(), f);
    }
}

/// The features of a token, pushed in order.
fn push_token_features(out: &mut Vec<String>, t: &str)
    ensures
        str_views(final(out)@) == str_views(old(out)@) + token_features(t@),
{
    let cs = chars_of(t);
    let mut f = String::from_str("token:");
    f.append(t);
    let ghost start = str_views(out@);
    out.push(f);
    proof {
        reveal_strlit("token:");
        assert(str_views(out@) =~= start + seq!["token:"@ + t@]);
    }
    let mut w: usize = 2;
    while w <= 3
        invariant
            2 <= w <= 4,
            cs@ == t@,
            str_views(out@) == start + seq!["token:"@ + t@] + (if w > 2 && t@.len() >= 2 {
                windows_of(t@, 2, "ngram:2:"@, (t@.len() - 1) as nat)
            } else {
                seq![]
            }) + (if w > 3 && t@.len() >= 3 {
                windows_of(t@, 3, "ngram:3:"@, (t@.len() - 2) as nat)
            } else {
                seq![]
            }),
        decreases 4 - w,
    {
        let ghost mid = str_views(out@);
        if cs.len() >= w {
            let n = cs.len() - w + 1;
            let mut k: usize = 0;
            while k < n
                invariant
                    k <= n,
                    n == cs@.len() - w + 1,
                    w <= cs@.len() <= usize::MAX,
                    2 <= w <= 3,
                    cs@ == t@,
                    str_views(out@) == mid + windows_of(t@, w as nat, if w == 2 { "ngram:2:"@ } else { "ngram:3:"@ }, k as nat),
                decreases n - k,
            {
                let mut g = if w == 2 { String::from_str("ngram:2:") } else { String::from_str("ngram:3:") };
                assert(k + w <= cs@.len());
                let e: usize = k + w;
                let window = crate::text::slice_chars(cs.as_slice(), k, e);
                crate::text::push_chars(&mut g, window.as_slice());
                let ghost before = str_views(out@);
                out.push(g);
                assert(str_views(out@) =~= before.push(g@));
                k = k + 1;
            }
        }
        proof {
            if w == 2 {
                assert(str_views(out@) =~= start + seq!["token:"@ + t@] + (if t@.len() >= 2 {
                    windows_of(t@, 2, "ngram:2:"@, (t@.len() - 1) as nat)
                } else {
                    seq![]
                }) + seq![]);
            } else {
                assert(str_views(out@) =~= start + seq!["token:"@ + t@] + (if t@.len() >= 2 {
                    windows_of(t@, 2, "ngram:2:"@, (t@.len() - 1) as nat)
                } else {
                    seq![]
                }) + (if t@.len() >= 3 {
                    windows_of(t@, 3, "ngram:3:"@, (t@.len() - 2) as nat)
                } else {
                    seq![]
                }));
            }
        }
        w = w + 1;
    }
    assert(str_views(out@) =~= str_views(old(out)@) + token_features(t@));
}

/// `f` has an entry in `c`.
pub open spec fn has_key(c: Seq<(Seq<char>, nat)>, f: Seq<char>) -> bool {
    exists|i: int| 0 <= i < c.len() && (#[trigger] c[i]).0 == f
}

pub open spec fn keys_sorted(c: Seq<(Seq<char>, nat)>) -> bool {
    forall|i: int, j: int| 0 <= i < j < c.len() ==> lex_lt((#[trigger] c[i]).0, (#[trigger] c[j]).0)
}

/// The index of the entry for `f`.
fn find_count(c: &Vec<(String, usize)>, f: &str) -> (r: Option<usize>)
    ensures
        match r {
            Some(i) => i < c@.len() && c@[i as int].0@ == f@,
            None => !has_key(count_views(c@), f@),
        },
{
    let mut i: usize = 0;
    while i < c.len()
        invariant
            i <= c@.len(),
            forall|j: int| 0 <= j < i ==> (#[trigger] c@[j]).0@ != f@,
        decreases c@.len() - i,
    {
        if crate::text::chars_equal_str(chars_of(c[i].0.as_str()).as_slice(), f) {
            return Some(i);
        }
        i = i + 1;
    }
    proof {
        if has_key(count_views(c@), f@) {
            let j = choose|j: int| 0 <= j < count_views(c@).len() && (#[trigger] count_views(c@)[j]).0 == f@;
            assert(c@[j].0@ == f@);
        }
    }
    None
}

/// Inserts a new key with count one, in string order.
fn insert_count(c: &mut Vec<(String, usize)>, f: String)
    requires
        keys_sorted(count_views(old(c)@)),
        !has_key(count_views(old(c)@), f@),
    ensures
        keys_sorted(count_views(final(c)@)),
        forall|g: Seq<char>| has_key(count_views(final(c)@), g) <==> (has_key(count_views(old(c)@), g) || g == f@),
        forall|e: (Seq<char>, nat)| count_views(final(c)@).contains(e) <==> (count_views(old(c)@).contains(e) || e == (f@, 1nat)),
{
    let ghost before = count_views(c@);
    let fc = chars_of(f.as_str());
    let mut p: usize = 0;
    while p < c.len() && chars_lt(chars_of(c[p].0.as_str()).as_slice(), fc.as_slice())
        invariant
            p <= c@.len(),
            before == count_views(c@),
            fc@ == f@,
            forall|i: int| 0 <= i < p ==> lex_lt((#[trigger] before[i]).0, f@),
        decreases c@.len() - p,
    {
        p = p + 1;
    }
    proof {
        if p < before.len() {
            assert(before[p as int].0 != f@);
            crate::text::lemma_lex_total(before[p as int].0, f@);
            assert forall|i: int| p <= i < before.len() implies lex_lt(f@, (#[trigger] before[i]).0) by {
                if i > p {
                    crate::text::lemma_lex_transitive(f@, before[p as int].0, before[i].0);
                }
            }
        }
    }
    c.insert(p, (f, 1));
    proof {
        let after = count_views(c@);
        let e = (f@, 1nat);
        assert(after =~= before.insert(p as int, e));
        assert forall|i: int, j: int| 0 <= i < j < after.len() implies lex_lt((#[trigger] after[i]).0, (#[trigger] after[j]).0) by {
            if i < p && j > p {
                crate::text::lemma_lex_transitive(before[i].0, f@, before[j - 1].0);
            }
        }
        assert forall|g: Seq<char>| has_key(after, g) <==> (has_key(before, g) || g == f@) by {
            if has_key(after, g) {
                let i = choose|i: int| 0 <= i < after.len() && (#[trigger] after[i]).0 == g;
                if i > p {
                    assert(before[i - 1].0 == g);
                } else if i < p {
                    assert(before[i].0 == g);
                }
            }
            if has_key(before, g) {
                let i = choose|i: int| 0 <= i < before.len() && (#[trigger] before[i]).0 == g;
                if i >= p {
                    assert(after[i + 1].0 == g);
                } else {
                    assert(after[i].0 == g);
                }
            }
            if g == f@ {
                assert(after[p as int].0 == g);
            }
        }
        assert forall|x: (Seq<char>, nat)| after.contains(x) <==> (before.contains(x) || x == e) by {
            if after.contains(x) {
                let i = choose|i: int| 0 <= i < after.len() && after[i] == x;
                if i > p {
                    assert(before[i - 1] == x);
                } else if i < p {
                    assert(before[i] == x);
                }
            }
            if before.contains(x) {
                let i = choose|i: int| 0 <= i < before.len() && before[i] == x;
                if i >= p {
                    assert(after[i + 1] == x);
                } else {
                    assert(after[i] == x);
                }
            }
            if x == e {
                assert(after[p as int] == x);
            }
        }
    }
}

/// Each distinct feature once, with its number of occurrences, in string
/// order.
pub fn feature_counts(features: &Vec<String>) -> (r: Vec<(String, usize)>)
    ensures
        counted(str_views(features@), count_views(r@)),
{
    let ghost fs = str_views(features@);
    let mut c: Vec<(String, usize)> = Vec::new();
    let mut k: usize = 0;
    while k < features.len()
        invariant
            k <= features@.len(),
            fs == str_views(features@),
            keys_sorted(count_views(c@)),
            forall|e: (Seq<char>, nat)| #[trigger] count_views(c@).contains(e) ==> e.1 == count_in(fs.take(k as int), e.0) && e.1 > 0,
            forall|g: Seq<char>| count_in(fs.take(k as int), g) > 0 ==> #[trigger] has_key(count_views(c@), g),
            forall|g: Seq<char>| #[trigger] has_key(count_views(c@), g) ==> count_in(fs.take(k as int), g) > 0,
        decreases features@.len() - k,
    {
        let f = &features[k];
        proof {
            assert(fs.take(k + 1).drop_last() =~= fs.take(k as int));
            assert(fs.take(k + 1).last() == f@);
            lemma_count_bound(fs.take(k as int), f@);
        }
        match find_count(&c, f.as_str()) {
            Some(i) => {
                let ghost before = count_views(c@);
                let n = c[i].1;
                proof {
                    assert(before.contains(before[i as int]));
                }
                let key = string_of(chars_of(c[i].0.as_str()).as_slice());
                c.set(i, (key, n + 1));
                proof {
                    let after = count_views(c@);
                    assert(after =~= before.update(i as int, (f@, (n + 1) as nat)));
                    assert forall|a: int, b: int| 0 <= a < b < after.len() implies lex_lt((#[trigger] after[a]).0, (#[trigger] after[b]).0) by {
                        assert(lex_lt(before[a].0, before[b].0));
                    }
                    assert forall|e: (Seq<char>, nat)| #[trigger] after.contains(e) implies e.1 == count_in(fs.take(k + 1), e.0) && e.1 > 0 by {
                        let x = choose|x: int| 0 <= x < after.len() && after[x] == e;
                        if x != i {
                            assert(before.contains(before[x]));
                            if before[x].0 == f@ {
                                if x < i {
                                    assert(lex_lt(before[x].0, before[i as int].0));
                                } else {
                                    assert(lex_lt(before[i as int].0, before[x].0));
                                }
                                crate::text::lemma_lex_irreflexive(f@);
                            }
                        }
                    }
                    assert forall|g: Seq<char>| count_in(fs.take(k + 1), g) > 0 implies #[trigger] has_key(after, g) by {
                        if g == f@ {
                            assert(after[i as int].0 == g);
                        } else {
                            assert(has_key(before, g));
                            let x = choose|x: int| 0 <= x < before.len() && (#[trigger] before[x]).0 == g;
                            assert(after[x].0 == g);
                        }
                    }
                    assert forall|g: Seq<char>| #[trigger] has_key(after, g) implies count_in(fs.take(k + 1), g) > 0 by {
                        let x = choose|x: int| 0 <= x < after.len() && (#[trigger] after[x]).0 == g;
                        if x != i {
                            assert(before[x].0 == g);
                            assert(has_key(before, g));
                        }
                    }
                }
            },
            None => {
                let ghost before = count_views(c@);
                insert_count(&mut c, string_of(chars_of(f.as_str()).as_slice()));
                proof {
                    let after = count_views(c@);
                    assert forall|e: (Seq<char>, nat)| #[trigger] after.contains(e) implies e.1 == count_in(fs.take(k + 1), e.0) && e.1 > 0 by {
                        if before.contains(e) {
                            let x = choose|x: int| 0 <= x < before.len() && before[x] == e;
                            assert(before[x].0 == e.0);
                            assert(has_key(before, e.0));
                        }
                    }
                    assert forall|g: Seq<char>| count_in(fs.take(k + 1), g) > 0 implies #[trigger] has_key(after, g) by {}
                    assert forall|g: Seq<char>| #[trigger] has_key(after, g) implies count_in(fs.take(k + 1), g) > 0 by {}
                }
            },
        }
        k = k + 1;
    }
    proof {
        assert(fs.take(features@.len() as int) =~= fs);
        let cv = count_views(c@);
        assert forall|i: int| 0 <= i < cv.len() implies (#[trigger] cv[i]).1 == count_in(fs, cv[i].0) && cv[i].1 > 0 by {
            assert(cv.contains(cv[i]));
        }
        assert forall|f: Seq<char>| count_in(fs, f) > 0 implies exists|i: int| 0 <= i < cv.len() && (#[trigger] cv[i]).0 == f by {
            assert(has_key(cv, f));
        }
    }
    c
}

/// The little-endian value of a byte string.
pub open spec fn le_value(b: Seq<u8>) -> nat
    decreases b.len(),
{
    if b.len() == 0 {
        0
    } else {
        (b[0] + 256 * le_value(b.drop_first())) as nat
    }
}

/// A counted feature placed in the hash embedding: its slot (the first
/// eight digest bytes, little-endian, modulo the width), its sign (the low
/// bit of the ninth byte), whether it is a whole-token feature, and its
/// count.
pub struct HashedFeature {
    pub feature: String,
    pub index: usize,
    pub negative: bool,
    pub token: bool,
    pub count: usize,
}

/// The placement of feature `f` seen `count` times.
pub open spec fn hashed_of(f: Seq<char>, count: nat) -> (nat, bool, bool, nat) {
    let d = sha256_of(utf8(f));
    (le_value(d.take(8)) % (HASH_EMBEDDING_DIMENSIONS as nat), d[8] % 2 == 1, crate::text::has_prefix(f, "token:"@), count)
}

pub open spec fn hashed_view(h: HashedFeature) -> (nat, bool, bool, nat) {
    (h.index as nat, h.negative, h.token, h.count as nat)
}

pub open spec fn feature_views(v: Seq<HashedFeature>) -> Seq<(Seq<char>, nat)> {
    Seq::new(v.len(), |i: int| (v[i].feature@, v[i].count as nat))
}

proof fn lemma_horner(a: int, v: int)
    requires
        0 <= a,
        0 <= v,
    ensures
        (a + 256 * v) % 384 == (a + 256 * (v % 384)) % 384,
{
    vstd::arithmetic::div_mod::lemma_fundamental_div_mod(v, 384);
    let q = v / 384;
    assert(a + 256 * v == 384 * (256 * q) + (a + 256 * (v % 384))) by (nonlinear_arith)
        requires
            v == 384 * q + v % 384,
    ;
    vstd::arithmetic::div_mod::lemma_mod_multiples_vanish(256 * q, a + 256 * (v % 384), 384);
}

/// The slot of a digest: its first eight bytes, little-endian, modulo the
/// embedding width.
fn digest_slot(d: &Vec<u8>) -> (r: usize)
    requires
        d@.len() >= 8,
    ensures
        r == le_value(d@.take(8)) % (HASH_EMBEDDING_DIMENSIONS as nat),
{
    let mut acc: usize = 0;
    let mut i: usize = 8;
    assert(d@.subrange(8, 8) =~= Seq::<u8>::empty());
    while i > 0
        invariant
            i <= 8 <= d@.len(),
            acc < 384,
            acc == le_value(d@.subrange(i as int, 8)) % 384,
        decreases i,
    {
        i = i - 1;
        let b = d[i] as usize;
        proof {
            assert(d@.subrange(i as int, 8).drop_first() =~= d@.subrange(i + 1, 8));
            lemma_horner(b as int, le_value(d@.subrange(i + 1, 8)) as int);
        }
        acc = (b + 256 * acc) % 384;
    }
    assert(d@.subrange(0, 8) =~= d@.take(8));
    acc
}

/// The features of a text placed in the hash embedding: each distinct
/// feature once with its count, in string order.
pub fn hash_features(input: &str) -> (r: Vec<HashedFeature>)
    ensures
        counted(all_features(tokens_of(input@)), feature_views(r@)),
        forall|i: int| 0 <= i < r@.len() ==> hashed_view(#[trigger] r@[i]) == hashed_of(r@[i].feature@, r@[i].count as nat),
{
    let tokens = tokenize(input);
    let mut fs: Vec<String> = Vec::new();
    let mut t: usize = 0;
    while t < tokens.len()
        invariant
            t <= tokens@.len(),
            str_views(tokens@) == tokens_of(input@),
            str_views(fs@) == all_features(str_views(tokens@).take(t as int)),
        decreases tokens@.len() - t,
    {
        proof {
            let tv = str_views(tokens@);
            assert(tv.take(t + 1).drop_last() =~= tv.take(t as int));
        }
        push_token_features(&mut fs, tokens[t].as_str());
        t = t + 1;
    }
    assert(str_views(tokens@).take(tokens@.len() as int) =~= str_views(tokens@));
    let counts = feature_counts(&fs);
    let mut out: Vec<HashedFeature> = Vec::new();
    let mut i: usize = 0;
    while i < counts.len()
        invariant
            i <= counts@.len(),
            out@.len() == i,
            forall|j: int| 0 <= j < i ==> (#[trigger] out@[j]).feature@ == counts@[j].0@ && out@[j].count == counts@[j].1,
            forall|j: int| 0 <= j < i ==> hashed_view(#[trigger] out@[j]) == hashed_of(out@[j].feature@, out@[j].count as nat),
        decreases counts@.len() - i,
    {
        let f = &counts[i].0;
        let bytes = utf8_bytes(f.as_str());
        let d = sha256(bytes.as_slice());
        let slot = digest_slot(&d);
        let negative = d[8] % 2 == 1;
        let token = crate::text::starts_with(chars_of(f.as_str()).as_slice(), chars_of("token:").as_slice());
        out.push(HashedFeature { feature: string_of(chars_of(f.as_str()).as_slice()), index: slot, negative, token, count: counts[i].1 });
        i = i + 1;
    }
    assert(feature_views(out@) =~= count_views(counts@));
    out
}

/// The embedding a configuration names, by its trimmed lowercase name.
pub open spec fn configured_embedding(value: Seq<char>) -> Option<EmbeddingMode> {
    let v = crate::text::ascii_lower_seq(crate::text::trim(value));
    if v == "none"@ {
        Some(EmbeddingMode::Off)
    } else if v == "hash"@ {
        Some(EmbeddingMode::Hash)
    } else {
        None
    }
}

/// Reads `rag.embedding` of the configuration.
pub fn parse_configured_embedding(value: &str) -> (r: Result<EmbeddingMode, String>)
    ensures
        match configured_embedding(value@) {
            Some(m) => r == Ok::<EmbeddingMode, String>(m),
            None => r matches Err(e) && e@ == "invalid rag.embedding '"@ + crate::text::ascii_lower_seq(
                crate::text::trim(value@),
            ) + "' in wiki.yaml; expected 'none' or 'hash'."@,
        },
{
    let v = crate::text::ascii_lowercase(crate::text::trim_chars(chars_of(value).as_slice()).as_slice());
    if crate::text::chars_equal_str(v.as_slice(), "none") {
        Ok(EmbeddingMode::Off)
    } else if crate::text::chars_equal_str(v.as_slice(), "hash") {
        Ok(EmbeddingMode::Hash)
    } else {
        let mut m = String::from_str("invalid rag.embedding '");
        crate::text::push_chars(&mut m, v.as_slice());
        m.append("' in wiki.yaml; expected 'none' or 'hash'.");
        Err(m)
    }
}

} // verus!
