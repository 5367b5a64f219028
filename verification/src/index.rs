//! Rule-based technical entities of a chunk, and the index's options,
//! counts and errors.

use vstd::prelude::*;
use crate::ask::words;
use crate::sdd_change::{utf8_len, utf8_width};
use crate::pattern::{capture_views, regex_captures, regex_find_spans, regex_is_match, spans_within};
use crate::text::{
    ascii_lower_seq, chars_equal_str, chars_of, contains_seq, has_prefix, is_ascii_alnum, is_ascii_alpha,
    is_ascii_digit, is_ascii_upper, is_ws, join, lemma_lex_irreflexive, lemma_lex_total, lemma_lex_transitive, lex_lt, slice_chars, str_views, string_of, trim, views, Sep,
};

verus! {

/// Default approximate characters per chunk.
pub const DEFAULT_CHUNK_CHARS: usize = 1200;

/// Largest approximate characters per chunk.
pub const MAX_CHUNK_CHARS: usize = 8000;

/// Options of an index build.
pub struct IndexOptions {
    /// Wiki root; `docs` when absent.
    pub path: Option<String>,
    /// Clear indexed rows before scanning.
    pub rebuild: bool,
    /// Approximate characters per chunk.
    pub chunk_chars: usize,
}

/// The counts an index build reports.
pub struct IndexStats {
    pub database_path: String,
    pub scanned: usize,
    pub added: usize,
    pub updated: usize,
    pub unchanged: usize,
    pub removed: usize,
    pub chunks: usize,
    pub links: usize,
    pub entities: usize,
    pub mentions: usize,
    pub relations: usize,
}

/// Why an index build failed.
pub enum IndexError {
    Invalid(String),
    Io(String),
    Database(String),
}

impl IndexError {
    /// The error's message.
    pub fn message(&self) -> (r: String)
        ensures
            r@ == match self {
                IndexError::Invalid(m) => m@,
                IndexError::Io(m) => m@,
                IndexError::Database(m) => m@,
            },
    {
        match self {
            IndexError::Invalid(m) => m.clone(),
            IndexError::Io(m) => m.clone(),
            IndexError::Database(m) => m.clone(),
        }
    }
}

/// The chunk size of a build, clamped to `1..=MAX_CHUNK_CHARS`.
pub fn chunk_limit(options: &IndexOptions) -> (r: usize)
    ensures
        r == if options.chunk_chars < 1 { 1 } else if options.chunk_chars > MAX_CHUNK_CHARS { MAX_CHUNK_CHARS } else { options.chunk_chars },
{
    if options.chunk_chars < 1 { 1 } else if options.chunk_chars > MAX_CHUNK_CHARS { MAX_CHUNK_CHARS } else { options.chunk_chars }
}

/// What a build does with a scanned page.
#[derive(Clone, Copy, PartialEq, Eq, Structural, Debug)]
pub enum PageChange {
    /// Indexed with the same content hash: left as it is.
    Unchanged,
    /// Indexed with another hash, or rebuilt: replaced.
    Updated,
    /// Not indexed yet: added.
    Added,
}

/// The change for a page given the hash it was indexed with, if any.
pub fn classify_page(indexed_hash: Option<&str>, hash: &str, rebuild: bool) -> (r: PageChange)
    ensures
        r == match indexed_hash {
            Some(h) => if h@ == hash@ && !rebuild { PageChange::Unchanged } else { PageChange::Updated },
            None => PageChange::Added,
        },
{
    match indexed_hash {
        Some(h) => {
            if chars_equal_str(chars_of(h).as_slice(), hash) && !rebuild {
                PageChange::Unchanged
            } else {
                PageChange::Updated
            }
        },
        None => PageChange::Added,
    }
}

// ---------------------------------------------------------------------------
// Entity name rules
// ---------------------------------------------------------------------------

/// Characters stripped from both ends of an entity name.
pub open spec fn is_name_edge(c: char) -> bool {
    c == '`' || c == ',' || c == ';' || c == ':' || c == ')' || c == '}' || c == ']'
}

pub open spec fn edge_prefix_len(s: Seq<char>) -> nat
    decreases s.len(),
{
    if s.len() > 0 && is_name_edge(s[0]) { 1 + edge_prefix_len(s.drop_first()) } else { 0 }
}

pub open spec fn edge_suffix_len(s: Seq<char>) -> nat
    decreases s.len(),
{
    if s.len() > 0 && is_name_edge(s.last()) { 1 + edge_suffix_len(s.drop_last()) } else { 0 }
}

/// `s` without edge characters at either end (`str::trim_matches`).
pub open spec fn strip_edges(s: Seq<char>) -> Seq<char> {
    let a = s.skip(edge_prefix_len(s) as int);
    a.take(a.len() - edge_suffix_len(a))
}

/// The first two words of a command, joined by a space.
pub open spec fn command_head_of(v: Seq<char>) -> Seq<char> {
    let w = words(v);
    join(w.take(if w.len() < 2 { w.len() as int } else { 2 }), seq![' '])
}

/// The canonical name of an entity: trimmed, edge characters stripped,
/// forward slashes, no leading `./`; a command keeps its first two words.
pub open spec fn entity_name(entity_type: Seq<char>, value: Seq<char>) -> Seq<char> {
    let v = crate::markdown::skip_dot_slashes(crate::shared::forward_slashes(strip_edges(trim(value))));
    if entity_type == "command"@ { command_head_of(v) } else { v }
}

proof fn lemma_edge_prefix(s: Seq<char>, k: int)
    requires
        0 <= k <= s.len(),
        forall|j: int| 0 <= j < k ==> is_name_edge(#[trigger] s[j]),
        k == s.len() || !is_name_edge(s[k]),
    ensures
        edge_prefix_len(s) == k,
    decreases k,
{
    if k > 0 {
        lemma_edge_prefix(s.drop_first(), k - 1);
    }
}

proof fn lemma_edge_suffix(s: Seq<char>, k: int)
    requires
        0 <= k <= s.len(),
        forall|j: int| s.len() - k <= j < s.len() ==> is_name_edge(#[trigger] s[j]),
        k == s.len() || !is_name_edge(s[s.len() - k - 1]),
    ensures
        edge_suffix_len(s) == k,
    decreases k,
{
    if k > 0 {
        lemma_edge_suffix(s.drop_last(), k - 1);
    }
}

fn name_edge(c: char) -> (r: bool)
    ensures
        r == is_name_edge(c),
{
    c == '`' || c == ',' || c == ';' || c == ':' || c == ')' || c == '}' || c == ']'
}

fn strip_name_edges(v: &[char]) -> (r: Vec<char>)
    ensures
        r@ == strip_edges(v@),
{
    let mut a: usize = 0;
    while a < v.len() && name_edge(v[a])
        invariant
            a <= v@.len(),
            forall|j: int| 0 <= j < a ==> is_name_edge(#[trigger] v@[j]),
        decreases v@.len() - a,
    {
        a = a + 1;
    }
    proof {
        lemma_edge_prefix(v@, a as int);
    }
    let mut b: usize = v.len();
    while b > a && name_edge(v[b - 1])
        invariant
            a <= b <= v@.len(),
            forall|j: int| b <= j < v@.len() ==> is_name_edge(#[trigger] v@[j]),
        decreases b,
    {
        b = b - 1;
    }
    proof {
        let s = v@.skip(a as int);
        assert forall|j: int| s.len() - (v@.len() - b) <= j < s.len() implies is_name_edge(#[trigger] s[j]) by {
            assert(s[j] == v@[a + j]);
        }
        if b > a {
            assert(s[s.len() - (v@.len() - b) - 1] == v@[b - 1]);
        }
        lemma_edge_suffix(s, (v@.len() - b) as int);
        assert(s.take(s.len() - edge_suffix_len(s)) =~= v@.subrange(a as int, b as int));
    }
    slice_chars(v, a, b)
}

/// The first two words of a command.
pub fn command_head(value: &str) -> (r: String)
    ensures
        r@ == command_head_of(value@),
{
    let ws = crate::text::split_chars(chars_of(value).as_slice(), Sep::Space);
    let mut kept: Vec<Vec<char>> = Vec::new();
    let mut i: usize = 0;
    while i < ws.len()
        invariant
            i <= ws@.len(),
            views(ws@) == crate::text::split_by(value@, Sep::Space),
            views(kept@) == crate::ask::drop_empty(views(ws@).take(i as int)),
        decreases ws@.len() - i,
    {
        proof {
            let t = views(ws@).take(i + 1);
            assert(t.drop_last() =~= views(ws@).take(i as int));
            assert(t.last() == ws@[i as int]@);
        }
        if ws[i].len() > 0 {
            let ghost before = views(kept@);
            let piece = slice_chars(ws[i].as_slice(), 0, ws[i].len());
            assert(piece@ =~= ws@[i as int]@);
            kept.push(piece);
            assert(views(kept@) =~= before.push(ws@[i as int]@));
        }
        i = i + 1;
    }
    assert(views(ws@).take(ws@.len() as int) =~= views(ws@));
    let n: usize = if kept.len() < 2 { kept.len() } else { 2 };
    let mut first: Vec<Vec<char>> = Vec::new();
    let mut j: usize = 0;
    while j < n
        invariant
            j <= n <= kept@.len(),
            views(first@) == views(kept@).take(j as int),
        decreases n - j,
    {
        let ghost before = views(first@);
        let piece = slice_chars(kept[j].as_slice(), 0, kept[j].len());
        assert(piece@ =~= kept@[j as int]@);
        first.push(piece);
        assert(views(first@) =~= before.push(kept@[j as int]@));
        assert(views(first@) =~= views(kept@).take(j + 1));
        j = j + 1;
    }
    let mut r = String::new();
    crate::text::push_joined(&mut r, &first, " ");
    proof {
        reveal_strlit(" ");
        assert(" "@ =~= seq![' ']);
        assert(r@ =~= command_head_of(value@));
    }
    r
}

/// The canonical name of an entity of the given type.
pub fn normalize_entity_name(entity_type: &str, value: &str) -> (r: String)
    ensures
        r@ == entity_name(entity_type@, value@),
{
    let t = crate::text::trim_chars(chars_of(value).as_slice());
    let e = strip_name_edges(t.as_slice());
    let f = crate::markdown::to_forward_slashes(e.as_slice());
    let d = crate::markdown::strip_dot_slashes(f.as_slice());
    let s = string_of(d.as_slice());
    if chars_equal_str(chars_of(entity_type).as_slice(), "command") {
        command_head(s.as_str())
    } else {
        s
    }
}

/// The command words an inline span may start with.
pub open spec fn is_command_word(w: Seq<char>) -> bool {
    w == "wiki"@ || w == "cargo"@ || w == "git"@ || w == "go"@ || w == "rustc"@
}

/// An inline span is a command: its first word is a known command.
pub open spec fn command_token(v: Seq<char>) -> bool {
    words(v).len() > 0 && is_command_word(words(v)[0])
}

/// Whether an inline span is a command.
pub fn is_command_token(value: &str) -> (r: bool)
    ensures
        r == command_token(value@),
{
    let first = chars_of(value);
    let pieces = crate::text::split_chars(first.as_slice(), Sep::Space);
    let mut i: usize = 0;
    while i < pieces.len()
        invariant
            i <= pieces@.len(),
            views(pieces@) == crate::text::split_by(value@, Sep::Space),
            crate::ask::drop_empty(views(pieces@).take(i as int)).len() == 0,
        decreases pieces@.len() - i,
    {
        proof {
            let t = views(pieces@).take(i + 1);
            assert(t.drop_last() =~= views(pieces@).take(i as int));
            assert(t.last() == pieces@[i as int]@);
        }
        if pieces[i].len() > 0 {
            let w = pieces[i].as_slice();
            proof {
                assert(views(pieces@)[i as int] == pieces@[i as int]@);
                lemma_first_word(views(pieces@), i as int);
                assert(words(value@)[0] == w@);
            }
            return chars_equal_str(w, "wiki") || chars_equal_str(w, "cargo") || chars_equal_str(w, "git")
                || chars_equal_str(w, "go") || chars_equal_str(w, "rustc");
        }
        i = i + 1;
    }
    assert(views(pieces@).take(pieces@.len() as int) =~= views(pieces@));
    false
}

proof fn lemma_first_word(pieces: Seq<Seq<char>>, i: int)
    requires
        0 <= i < pieces.len(),
        crate::ask::drop_empty(pieces.take(i)).len() == 0,
        pieces[i].len() > 0,
    ensures
        crate::ask::drop_empty(pieces).len() > 0,
        crate::ask::drop_empty(pieces)[0] == pieces[i],
    decreases pieces.len(),
{
    lemma_drop_empty_prefix(pieces, i + 1);
    assert(pieces.take(i + 1).drop_last() =~= pieces.take(i));
    assert(crate::ask::drop_empty(pieces.take(i + 1)) =~= seq![pieces[i]]);
}

proof fn lemma_drop_empty_prefix(pieces: Seq<Seq<char>>, k: int)
    requires
        0 <= k <= pieces.len(),
    ensures
        crate::ask::drop_empty(pieces.take(k)).len() <= crate::ask::drop_empty(pieces).len(),
        forall|j: int| 0 <= j < crate::ask::drop_empty(pieces.take(k)).len() ==> #[trigger] crate::ask::drop_empty(pieces)[j] == crate::ask::drop_empty(pieces.take(k))[j],
    decreases pieces.len() - k,
{
    if k < pieces.len() {
        lemma_drop_empty_prefix(pieces, k + 1);
        assert(pieces.take(k + 1).drop_last() =~= pieces.take(k));
    } else {
        assert(pieces.take(k) =~= pieces);
    }
}

/// The file extensions of technical paths.
pub open spec fn known_extension(lower: Seq<char>) -> bool {
    ||| crate::ask::has_suffix(lower, ".rs"@)
    ||| crate::ask::has_suffix(lower, ".go"@)
    ||| crate::ask::has_suffix(lower, ".toml"@)
    ||| crate::ask::has_suffix(lower, ".yaml"@)
    ||| crate::ask::has_suffix(lower, ".yml"@)
    ||| crate::ask::has_suffix(lower, ".json"@)
    ||| crate::ask::has_suffix(lower, ".md"@)
    ||| crate::ask::has_suffix(lower, ".csv"@)
}

/// A known extension with something before it.
pub open spec fn named_file(lower: Seq<char>) -> bool {
    ||| (crate::ask::has_suffix(lower, ".rs"@) && lower.len() > ".rs"@.len())
    ||| (crate::ask::has_suffix(lower, ".go"@) && lower.len() > ".go"@.len())
    ||| (crate::ask::has_suffix(lower, ".toml"@) && lower.len() > ".toml"@.len())
    ||| (crate::ask::has_suffix(lower, ".yaml"@) && lower.len() > ".yaml"@.len())
    ||| (crate::ask::has_suffix(lower, ".yml"@) && lower.len() > ".yml"@.len())
    ||| (crate::ask::has_suffix(lower, ".json"@) && lower.len() > ".json"@.len())
    ||| (crate::ask::has_suffix(lower, ".md"@) && lower.len() > ".md"@.len())
    ||| (crate::ask::has_suffix(lower, ".csv"@) && lower.len() > ".csv"@.len())
}

/// A path: a known extension and a slash or backslash.
pub open spec fn path_like(v: Seq<char>) -> bool {
    known_extension(ascii_lower_seq(v)) && (v.contains('/') || v.contains('\\'))
}

/// A file name: a known extension after at least one character.
pub open spec fn file_name_like(v: Seq<char>) -> bool {
    named_file(ascii_lower_seq(v))
}

/// An identifier: at least three ASCII letters, digits or `_`, starting
/// with a letter or `_`, with a capital, `_` or digit somewhere.
pub open spec fn identifier_like(v: Seq<char>) -> bool {
    &&& v.len() >= 3
    &&& (is_ascii_alpha(v[0]) || v[0] == '_')
    &&& forall|i: int| 0 <= i < v.len() ==> (is_ascii_alnum(#[trigger] v[i]) || v[i] == '_')
    &&& ((exists|i: int| 0 <= i < v.len() && is_ascii_upper(#[trigger] v[i])) || v.contains('_')
        || (exists|i: int| 0 <= i < v.len() && is_ascii_digit(#[trigger] v[i])))
}

/// Index table names that are not worth an entity.
pub open spec fn ignored_identifier(v: Seq<char>) -> bool {
    ||| crate::text::eq_ignore_case(v, "chunks_fts"@)
    ||| crate::text::eq_ignore_case(v, "co_occurs_in_chunk"@)
    ||| crate::text::eq_ignore_case(v, "entities"@)
    ||| crate::text::eq_ignore_case(v, "entity_mentions"@)
    ||| crate::text::eq_ignore_case(v, "relation_evidence"@)
    ||| crate::text::eq_ignore_case(v, "relations"@)
    ||| crate::text::eq_ignore_case(v, "wiki_links"@)
}

fn ends_with_str(v: &[char], p: &str) -> (r: bool)
    ensures
        r == crate::ask::has_suffix(v@, p@),
{
    crate::text::ends_with(v, chars_of(p).as_slice())
}

fn has_char(v: &[char], c: char) -> (r: bool)
    ensures
        r == v@.contains(c),
{
    let mut i: usize = 0;
    while i < v.len()
        invariant
            i <= v@.len(),
            forall|j: int| 0 <= j < i ==> v@[j] != c,
        decreases v@.len() - i,
    {
        if v[i] == c {
            return true;
        }
        i = i + 1;
    }
    false
}

fn has_known_extension(lower: &[char]) -> (r: bool)
    ensures
        r == known_extension(lower@),
{
    ends_with_str(lower, ".rs") || ends_with_str(lower, ".go") || ends_with_str(lower, ".toml")
        || ends_with_str(lower, ".yaml") || ends_with_str(lower, ".yml") || ends_with_str(lower, ".json")
        || ends_with_str(lower, ".md") || ends_with_str(lower, ".csv")
}

fn with_extension(lower: &[char], ext: &str) -> (r: bool)
    ensures
        r == (crate::ask::has_suffix(lower@, ext@) && lower@.len() > ext@.len()),
{
    let e = chars_of(ext);
    ends_with_str(lower, ext) && lower.len() > e.len()
}

/// Whether an inline span is a path.
pub fn looks_like_path(value: &str) -> (r: bool)
    ensures
        r == path_like(value@),
{
    let v = chars_of(value);
    let lower = crate::text::ascii_lowercase(v.as_slice());
    has_known_extension(lower.as_slice()) && (has_char(v.as_slice(), '/') || has_char(v.as_slice(), '\\'))
}

/// Whether an inline span is a file name.
pub fn looks_like_file_name(value: &str) -> (r: bool)
    ensures
        r == file_name_like(value@),
{
    let lower = crate::text::ascii_lowercase(chars_of(value).as_slice());
    let l = lower.as_slice();
    with_extension(l, ".rs") || with_extension(l, ".go") || with_extension(l, ".toml") || with_extension(l, ".yaml")
        || with_extension(l, ".yml") || with_extension(l, ".json") || with_extension(l, ".md") || with_extension(l, ".csv")
}

/// Whether an inline span is an identifier.
pub fn looks_like_identifier(value: &str) -> (r: bool)
    ensures
        r == identifier_like(value@),
{
    let v = chars_of(value);
    if v.len() < 3 {
        return false;
    }
    let c0 = v[0];
    if !(('a' <= c0 && c0 <= 'z') || ('A' <= c0 && c0 <= 'Z') || c0 == '_') {
        return false;
    }
    let mut upper = false;
    let mut under = false;
    let mut digit = false;
    let mut i: usize = 0;
    while i < v.len()
        invariant
            i <= v@.len(),
            v@ == value@,
            forall|j: int| 0 <= j < i ==> (is_ascii_alnum(#[trigger] v@[j]) || v@[j] == '_'),
            upper == (exists|j: int| 0 <= j < i && is_ascii_upper(#[trigger] v@[j])),
            under == (exists|j: int| 0 <= j < i && #[trigger] v@[j] == '_'),
            digit == (exists|j: int| 0 <= j < i && is_ascii_digit(#[trigger] v@[j])),
        decreases v@.len() - i,
    {
        let c = v[i];
        if !(('a' <= c && c <= 'z') || ('A' <= c && c <= 'Z') || ('0' <= c && c <= '9') || c == '_') {
            return false;
        }
        if 'A' <= c && c <= 'Z' {
            upper = true;
        }
        if c == '_' {
            under = true;
        }
        if '0' <= c && c <= '9' {
            digit = true;
        }
        i = i + 1;
    }
    proof {
        if under {
            let j = choose|j: int| 0 <= j < v@.len() && #[trigger] v@[j] == '_';
            assert(v@.contains('_'));
        }
        if v@.contains('_') {
            let j = choose|j: int| 0 <= j < v@.len() && v@[j] == '_';
            assert(v@[j] == '_');
        }
    }
    upper || under || digit
}

/// Whether an identifier names one of the index's own tables.
pub fn is_ignored_inline_identifier(value: &str) -> (r: bool)
    ensures
        r == ignored_identifier(value@),
{
    let v = chars_of(value);
    let s = v.as_slice();
    crate::text::eq_ignore_case_str(s, "chunks_fts") || crate::text::eq_ignore_case_str(s, "co_occurs_in_chunk")
        || crate::text::eq_ignore_case_str(s, "entities") || crate::text::eq_ignore_case_str(s, "entity_mentions")
        || crate::text::eq_ignore_case_str(s, "relation_evidence") || crate::text::eq_ignore_case_str(s, "relations")
        || crate::text::eq_ignore_case_str(s, "wiki_links")
}

/// The declaration at character `start` is the value of a `--type`-like
/// command-line option: the text before it, trimmed at the end, ends
/// with `--`.
pub open spec fn cli_option_value(text: Seq<char>, start: int) -> bool {
    crate::ask::has_suffix(crate::text::trim_end(text.take(start)), "--"@)
}

/// Whether the declaration at character `start` follows `--`.
pub fn is_cli_type_option_value(text: &[char], start: usize) -> (r: bool)
    requires
        start <= text@.len(),
    ensures
        r == cli_option_value(text@, start as int),
{
    let mut end = start;
    while end > 0 && crate::text::is_whitespace(text[end - 1])
        invariant
            end <= start <= text@.len(),
            forall|j: int| end <= j < start ==> is_ws(#[trigger] text@[j]),
        decreases end,
    {
        end = end - 1;
    }
    proof {
        let p = text@.take(start as int);
        assert forall|j: int| p.len() - (start - end) <= j < p.len() implies is_ws(#[trigger] p[j]) by {
            assert(p[j] == text@[j]);
        }
        if end > 0 {
            assert(p[p.len() - (start - end) - 1] == text@[end - 1]);
        }
        crate::text::lemma_ws_suffix_len(p, (start - end) as int);
        assert(crate::text::trim_end(p) =~= text@.take(end as int));
    }
    let head = slice_chars(text, 0, end);
    assert(head@ =~= text@.take(end as int));
    ends_with_str(head.as_slice(), "--")
}

/// Line breaks that end within the first `b` bytes.
pub open spec fn newlines_upto(s: Seq<char>, b: nat) -> nat
    decreases s.len(),
{
    if s.len() == 0 {
        0
    } else {
        newlines_upto(s.drop_last(), b) + if s.last() == '\n' && utf8_len(s) <= b { 1nat } else { 0nat }
    }
}

proof fn lemma_newlines_upto_bound(s: Seq<char>, b: nat)
    ensures
        newlines_upto(s, b) <= s.len(),
    decreases s.len(),
{
    if s.len() > 0 {
        lemma_newlines_upto_bound(s.drop_last(), b);
    }
}

proof fn lemma_utf8_len_monotone(s: Seq<char>, k: int)
    requires
        0 <= k <= s.len(),
    ensures
        utf8_len(s.take(k)) <= utf8_len(s),
    decreases s.len() - k,
{
    if k < s.len() {
        lemma_utf8_len_monotone(s, k + 1);
        assert(s.take(k + 1).drop_last() =~= s.take(k));
    } else {
        assert(s.take(k) =~= s);
    }
}

/// The line of byte offset `b`: `base_line` plus the line breaks before it.
pub fn line_for_offset(text: &[char], b: usize, base_line: usize) -> (r: usize)
    requires
        utf8_len(text@) <= usize::MAX,
        base_line + text@.len() <= usize::MAX,
    ensures
        r == base_line + newlines_upto(text@, b as nat),
{
    let mut count: usize = 0;
    let mut bytes: usize = 0;
    let mut i: usize = 0;
    while i < text.len()
        invariant
            i <= text@.len(),
            utf8_len(text@) <= usize::MAX,
            bytes == utf8_len(text@.take(i as int)),
            count == newlines_upto(text@.take(i as int), b as nat),
            count <= i,
        decreases text@.len() - i,
    {
        let c = text[i];
        let u = c as u32;
        let w: usize = if u < 0x80 { 1 } else if u < 0x800 { 2 } else if u < 0x10000 { 3 } else { 4 };
        proof {
            assert(text@.take(i + 1).drop_last() =~= text@.take(i as int));
            lemma_utf8_len_monotone(text@, i + 1);
        }
        bytes = bytes + w;
        if c == '\n' && bytes <= b {
            count = count + 1;
        }
        i = i + 1;
    }
    assert(text@.take(text@.len() as int) =~= text@);
    base_line + count
}

/// The byte offset of character `k`.
pub fn byte_offset(text: &[char], k: usize) -> (r: usize)
    requires
        k <= text@.len(),
        utf8_len(text@) <= usize::MAX,
    ensures
        r == utf8_len(text@.take(k as int)),
{
    let mut bytes: usize = 0;
    let mut i: usize = 0;
    while i < k
        invariant
            i <= k <= text@.len(),
            utf8_len(text@) <= usize::MAX,
            bytes == utf8_len(text@.take(i as int)),
        decreases k - i,
    {
        let u = text[i] as u32;
        let w: usize = if u < 0x80 { 1 } else if u < 0x800 { 2 } else if u < 0x10000 { 3 } else { 4 };
        proof {
            assert(text@.take(i + 1).drop_last() =~= text@.take(i as int));
            lemma_utf8_len_monotone(text@, i + 1);
        }
        bytes = bytes + w;
        i = i + 1;
    }
    bytes
}

// ---------------------------------------------------------------------------
// Entity candidates
// ---------------------------------------------------------------------------

/// Rust function declarations.
pub const RUST_FUNCTION: &'static str = "\\bfn\\s+([A-Za-z_][A-Za-z0-9_]*)";
/// Go function declarations.
pub const GO_FUNCTION: &'static str = "\\bfunc\\s+(?:\\([^)]*\\)\\s*)?([A-Za-z_][A-Za-z0-9_]*)";
/// Type declarations.
pub const TYPE_DECLARATION: &'static str = "\\b(?:struct|enum|trait|class|interface|type|impl)\\s+([A-Za-z_][A-Za-z0-9_]*)";
/// Module declarations.
pub const MODULE_DECLARATION: &'static str = "\\b(?:package|mod)\\s+([A-Za-z_][A-Za-z0-9_]*)";
/// Imports.
pub const IMPORT: &'static str = "\\b(?:use|import)\\s+([A-Za-z_][A-Za-z0-9_:/.-]*)";
/// File paths with a known extension.
pub const PATH: &'static str = "(?i)(?:[A-Za-z0-9_.-]+/)+[A-Za-z0-9_.-]+\\.(?:rs|go|toml|yaml|yml|json|md|csv)\\b";
/// Inline code spans.
pub const INLINE: &'static str = "\\x60([^\\x60\\n]+)\\x60";
/// Dotted configuration keys.
pub const CONFIG: &'static str = "[A-Za-z_][A-Za-z0-9_-]*\\.[A-Za-z_][A-Za-z0-9_.-]*";

/// A technical entity found in a chunk: its canonical name and type, the
/// text it was found as, its byte span, its lines, its confidence in
/// hundredths and the rule that found it.
pub struct EntityCandidate {
    pub canonical_name: String,
    pub entity_type: String,
    pub surface: String,
    pub start_pos: usize,
    pub end_pos: usize,
    pub start_line: usize,
    pub end_line: usize,
    pub confidence: u32,
    pub extractor: String,
}

/// A candidate as plain values.
pub struct CandidateView {
    pub name: Seq<char>,
    pub kind: Seq<char>,
    pub surface: Seq<char>,
    pub start: nat,
    pub end: nat,
    pub start_line: nat,
    pub end_line: nat,
    pub confidence: nat,
    pub extractor: Seq<char>,
}

pub open spec fn cand_view(c: EntityCandidate) -> CandidateView {
    CandidateView {
        name: c.canonical_name@,
        kind: c.entity_type@,
        surface: c.surface@,
        start: c.start_pos as nat,
        end: c.end_pos as nat,
        start_line: c.start_line as nat,
        end_line: c.end_line as nat,
        confidence: c.confidence as nat,
        extractor: c.extractor@,
    }
}

pub open spec fn cand_views(cs: Seq<EntityCandidate>) -> Seq<CandidateView> {
    Seq::new(cs.len(), |i: int| cand_view(cs[i]))
}

/// The candidate for a found text: dropped when the text is blank or its
/// canonical name empty.
pub open spec fn candidate_of(
    text: Seq<char>,
    base: nat,
    surface: Seq<char>,
    start: nat,
    end: nat,
    kind: Seq<char>,
    extractor: Seq<char>,
    confidence: nat,
    name: Seq<char>,
) -> Seq<CandidateView> {
    let s = trim(surface);
    if s.len() == 0 || name.len() == 0 {
        seq![]
    } else {
        seq![CandidateView {
            name,
            kind,
            surface: s,
            start,
            end,
            start_line: base + newlines_upto(text, start),
            end_line: base + newlines_upto(text, end),
            confidence,
            extractor,
        }]
    }
}

/// Where a matched span starts (zero for no span).
pub open spec fn span_start(span: Option<(usize, usize)>) -> int {
    match span {
        Some(p) => p.0 as int,
        None => 0,
    }
}

/// The byte offset of character `k`.
pub open spec fn byte_at(text: Seq<char>, k: int) -> nat {
    utf8_len(text.take(k))
}

/// The candidates of the first `n` matches of a declaration rule: the
/// captured name, except a type declared right after `--`.
pub open spec fn capture_cands(
    text: Seq<char>,
    base: nat,
    ms: Seq<Seq<Option<(usize, usize)>>>,
    n: nat,
    kind: Seq<char>,
    extractor: Seq<char>,
    confidence: nat,
) -> Seq<CandidateView>
    decreases n,
{
    if n == 0 {
        seq![]
    } else {
        let rest = capture_cands(text, base, ms, (n - 1) as nat, kind, extractor, confidence);
        let m = ms[n - 1];
        if m.len() > 1 && m[1] is Some && m[0] is Some && !(kind == "type"@ && cli_option_value(text, span_start(m[0]))) {
            let g = m[1]->0;
            let found = text.subrange(g.0 as int, g.1 as int);
            rest + candidate_of(text, base, found, byte_at(text, g.0 as int), byte_at(text, g.1 as int), kind, extractor,
                confidence, entity_name(kind, found))
        } else {
            rest
        }
    }
}

/// The candidates of the first `n` path matches.
pub open spec fn path_cands(text: Seq<char>, base: nat, spans: Seq<(usize, usize)>, n: nat) -> Seq<CandidateView>
    decreases n,
{
    if n == 0 {
        seq![]
    } else {
        let rest = path_cands(text, base, spans, (n - 1) as nat);
        let sp = spans[n - 1];
        let found = text.subrange(sp.0 as int, sp.1 as int);
        rest + candidate_of(text, base, found, byte_at(text, sp.0 as int), byte_at(text, sp.1 as int), "path"@, "rule:path"@, 90,
            entity_name("path"@, found))
    }
}

/// The candidate of an inline code span whose trimmed text `token` starts
/// at byte `start` and ends at byte `end`.
pub open spec fn inline_cand(text: Seq<char>, base: nat, token: Seq<char>, start: nat, end: nat) -> Seq<CandidateView> {
    if command_token(token) {
        let cmd = command_head_of(token);
        let cend: nat = if start + utf8_len(cmd) <= usize::MAX { start + utf8_len(cmd) } else { usize::MAX as nat };
        candidate_of(text, base, cmd, start, cend, "command"@, "rule:inline-command"@, 90, cmd)
    } else if path_like(token) {
        candidate_of(text, base, token, start, end, "path"@, "rule:inline-path"@, 92, entity_name("path"@, token))
    } else if file_name_like(token) {
        candidate_of(text, base, token, start, end, "path"@, "rule:inline-file"@, 90, entity_name("path"@, token))
    } else if regex_is_match(CONFIG@, token) && !has_prefix(token, "http"@) {
        candidate_of(text, base, token, start, end, "config"@, "rule:inline-config"@, 80, entity_name("config"@, token))
    } else if identifier_like(token) && !ignored_identifier(token) {
        candidate_of(text, base, token, start, end, "identifier"@, "rule:inline-identifier"@, 72, entity_name("identifier"@, token))
    } else {
        seq![]
    }
}

/// The candidates of the first `n` inline code spans.
pub open spec fn inline_cands(text: Seq<char>, base: nat, ms: Seq<Seq<Option<(usize, usize)>>>, n: nat) -> Seq<CandidateView>
    decreases n,
{
    if n == 0 {
        seq![]
    } else {
        let rest = inline_cands(text, base, ms, (n - 1) as nat);
        let m = ms[n - 1];
        if m.len() > 1 && m[1] is Some {
            let g = m[1]->0;
            let inner = text.subrange(g.0 as int, g.1 as int);
            let token = trim(inner);
            if token.len() == 0 {
                rest
            } else {
                let sc = g.0 + crate::text::ws_prefix_len(inner);
                rest + inline_cand(text, base, token, byte_at(text, sc), byte_at(text, sc + token.len()))
            }
        } else {
            rest
        }
    }
}

/// Appends the candidate for a found text, unless its trimmed text or its
/// canonical name is empty.
fn push_candidate(
    cands: &mut Vec<EntityCandidate>,
    text: &[char],
    base_line: usize,
    surface: &[char],
    start: usize,
    end: usize,
    kind: &str,
    extractor: &str,
    confidence: u32,
    name: String,
)
    requires
        utf8_len(text@) <= usize::MAX,
        base_line + text@.len() <= usize::MAX,
    ensures
        cand_views(final(cands)@) == cand_views(old(cands)@) + candidate_of(
            text@,
            base_line as nat,
            surface@,
            start as nat,
            end as nat,
            kind@,
            extractor@,
            confidence as nat,
            name@,
        ),
{
    let s = crate::text::trim_chars(surface);
    if s.len() == 0 || crate::text::char_count(name.as_str()) == 0 {
        assert(cand_views(cands@) =~= cand_views(old(cands)@) + seq![]);
        return;
    }
    let c = EntityCandidate {
        canonical_name: name,
        entity_type: string_of(chars_of(kind).as_slice()),
        surface: string_of(s.as_slice()),
        start_pos: start,
        end_pos: end,
        start_line: line_for_offset(text, start, base_line),
        end_line: line_for_offset(text, end, base_line),
        confidence,
        extractor: string_of(chars_of(extractor).as_slice()),
    };
    let ghost before = cand_views(cands@);
    cands.push(c);
    assert(cand_views(cands@) =~= before.push(cand_view(c)));
}

/// Adds the candidates of every match of a declaration rule.
fn add_capture_entities(
    cands: &mut Vec<EntityCandidate>,
    text: &str,
    chars: &Vec<char>,
    base_line: usize,
    pattern: &str,
    kind: &str,
    extractor: &str,
    confidence: u32,
)
    requires
        chars@ == text@,
        utf8_len(text@) <= usize::MAX,
        base_line + text@.len() <= usize::MAX,
    ensures
        cand_views(final(cands)@) == cand_views(old(cands)@) + capture_cands(
            text@,
            base_line as nat,
            regex_captures(pattern@, text@),
            regex_captures(pattern@, text@).len(),
            kind@,
            extractor@,
            confidence as nat,
        ),
{
    let ms = crate::pattern::captures(pattern, text);
    let ghost mv = capture_views(ms@);
    let is_type = chars_equal_str(chars_of(kind).as_slice(), "type");
    let mut i: usize = 0;
    while i < ms.len()
        invariant
            i <= ms@.len(),
            mv == capture_views(ms@),
            mv == regex_captures(pattern@, text@),
            spans_within(mv, text@.len()),
            chars@ == text@,
            utf8_len(text@) <= usize::MAX,
            base_line + text@.len() <= usize::MAX,
            is_type == (kind@ == "type"@),
            cand_views(cands@) == cand_views(old(cands)@) + capture_cands(
                text@, base_line as nat, mv, i as nat, kind@, extractor@, confidence as nat),
        decreases ms@.len() - i,
    {
        let m = &ms[i];
        assert(mv[i as int] == m@);
        let ghost before = cand_views(cands@);
        if m.len() > 1 {
            match (m[0], m[1]) {
                (Some(whole), Some(g)) => {
                    assert(m@[0] == mv[i as int][0]);
                    assert(m@[1] == mv[i as int][1]);
                    let skip = is_type && is_cli_type_option_value(chars.as_slice(), whole.0);
                    if !skip {
                        let found = slice_chars(chars.as_slice(), g.0, g.1);
                        let found_text = string_of(found.as_slice());
                        let name = normalize_entity_name(kind, found_text.as_str());
                        let sb = byte_offset(chars.as_slice(), g.0);
                        let eb = byte_offset(chars.as_slice(), g.1);
                        push_candidate(cands, chars.as_slice(), base_line, found.as_slice(), sb, eb, kind,
                            extractor, confidence, name);
                    }
                },
                _ => {},
            }
        }
        i = i + 1;
        assert(cand_views(cands@) == cand_views(old(cands)@) + capture_cands(
            text@, base_line as nat, mv, i as nat, kind@, extractor@, confidence as nat));
    }
}

/// Adds the candidates of every file path with a known extension.
fn add_path_entities(cands: &mut Vec<EntityCandidate>, text: &str, chars: &Vec<char>, base_line: usize)
    requires
        chars@ == text@,
        utf8_len(text@) <= usize::MAX,
        base_line + text@.len() <= usize::MAX,
    ensures
        cand_views(final(cands)@) == cand_views(old(cands)@) + path_cands(
            text@,
            base_line as nat,
            regex_find_spans(PATH@, false, text@),
            regex_find_spans(PATH@, false, text@).len(),
        ),
{
    let spans = crate::pattern::find_spans(PATH, false, text);
    let mut i: usize = 0;
    while i < spans.len()
        invariant
            i <= spans@.len(),
            spans@ == regex_find_spans(PATH@, false, text@),
            forall|k: int| 0 <= k < spans@.len() ==> (#[trigger] spans@[k]).0 <= spans@[k].1 <= text@.len(),
            chars@ == text@,
            utf8_len(text@) <= usize::MAX,
            base_line + text@.len() <= usize::MAX,
            cand_views(cands@) == cand_views(old(cands)@) + path_cands(text@, base_line as nat, spans@, i as nat),
        decreases spans@.len() - i,
    {
        let sp = spans[i];
        assert(spans@[i as int] == sp);
        let found = slice_chars(chars.as_slice(), sp.0, sp.1);
        let found_text = string_of(found.as_slice());
        let name = normalize_entity_name("path", found_text.as_str());
        let sb = byte_offset(chars.as_slice(), sp.0);
        let eb = byte_offset(chars.as_slice(), sp.1);
        push_candidate(cands, chars.as_slice(), base_line, found.as_slice(), sb, eb, "path", "rule:path", 90, name);
        i = i + 1;
    }
}

/// `start` plus the UTF-8 length of `v`, or `usize::MAX` when that does
/// not fit.
fn end_after(start: usize, v: &[char]) -> (r: usize)
    ensures
        r == (if start + utf8_len(v@) <= usize::MAX { start + utf8_len(v@) } else { usize::MAX as int }),
{
    let mut total: usize = start;
    let mut i: usize = 0;
    while i < v.len()
        invariant
            i <= v@.len(),
            total == start + utf8_len(v@.take(i as int)),
        decreases v@.len() - i,
    {
        let u = v[i] as u32;
        let w: usize = if u < 0x80 { 1 } else if u < 0x800 { 2 } else if u < 0x10000 { 3 } else { 4 };
        proof {
            assert(v@.take(i + 1).drop_last() =~= v@.take(i as int));
        }
        if total > usize::MAX - w {
            proof {
                lemma_utf8_len_monotone(v@, i + 1);
            }
            return usize::MAX;
        }
        total = total + w;
        i = i + 1;
    }
    assert(v@.take(v@.len() as int) =~= v@);
    total
}

/// Adds the candidate of one inline code span.
fn add_inline_candidate(
    cands: &mut Vec<EntityCandidate>,
    chars: &Vec<char>,
    base_line: usize,
    token: &[char],
    start: usize,
    end: usize,
)
    requires
        utf8_len(chars@) <= usize::MAX,
        base_line + chars@.len() <= usize::MAX,
    ensures
        cand_views(final(cands)@) == cand_views(old(cands)@) + inline_cand(
            chars@,
            base_line as nat,
            token@,
            start as nat,
            end as nat,
        ),
{
    let t = string_of(token);
    if is_command_token(t.as_str()) {
        let cmd = command_head(t.as_str());
        let cmd_chars = chars_of(cmd.as_str());
        let cend = end_after(start, cmd_chars.as_slice());
        let name = string_of(cmd_chars.as_slice());
        push_candidate(cands, chars.as_slice(), base_line, cmd_chars.as_slice(), start, cend, "command",
            "rule:inline-command", 90, name);
    } else if looks_like_path(t.as_str()) {
        let name = normalize_entity_name("path", t.as_str());
        push_candidate(cands, chars.as_slice(), base_line, token, start, end, "path", "rule:inline-path", 92, name);
    } else if looks_like_file_name(t.as_str()) {
        let name = normalize_entity_name("path", t.as_str());
        push_candidate(cands, chars.as_slice(), base_line, token, start, end, "path", "rule:inline-file", 90, name);
    } else if crate::pattern::is_match(CONFIG, t.as_str()) && !crate::text::starts_with(token, chars_of("http").as_slice()) {
        let name = normalize_entity_name("config", t.as_str());
        push_candidate(cands, chars.as_slice(), base_line, token, start, end, "config", "rule:inline-config", 80, name);
    } else if looks_like_identifier(t.as_str()) && !is_ignored_inline_identifier(t.as_str()) {
        let name = normalize_entity_name("identifier", t.as_str());
        push_candidate(cands, chars.as_slice(), base_line, token, start, end, "identifier",
            "rule:inline-identifier", 72, name);
    } else {
        assert(cand_views(cands@) =~= cand_views(old(cands)@) + seq![]);
    }
}

/// Adds the candidates of every inline code span.
fn add_inline_entities(cands: &mut Vec<EntityCandidate>, text: &str, chars: &Vec<char>, base_line: usize)
    requires
        chars@ == text@,
        utf8_len(text@) <= usize::MAX,
        base_line + text@.len() <= usize::MAX,
    ensures
        cand_views(final(cands)@) == cand_views(old(cands)@) + inline_cands(
            text@,
            base_line as nat,
            regex_captures(INLINE@, text@),
            regex_captures(INLINE@, text@).len(),
        ),
{
    let ms = crate::pattern::captures(INLINE, text);
    let ghost mv = capture_views(ms@);
    let mut i: usize = 0;
    while i < ms.len()
        invariant
            i <= ms@.len(),
            mv == capture_views(ms@),
            mv == regex_captures(INLINE@, text@),
            spans_within(mv, text@.len()),
            chars@ == text@,
            utf8_len(text@) <= usize::MAX,
            base_line + text@.len() <= usize::MAX,
            cand_views(cands@) == cand_views(old(cands)@) + inline_cands(text@, base_line as nat, mv, i as nat),
        decreases ms@.len() - i,
    {
        let m = &ms[i];
        assert(mv[i as int] == m@);
        if m.len() > 1 {
            match m[1] {
                Some(g) => {
                    assert(m@[1] == mv[i as int][1]);
                    let inner = slice_chars(chars.as_slice(), g.0, g.1);
                    let (a, b) = crate::text::trim_bounds(inner.as_slice());
                    if a < b {
                        let token = slice_chars(inner.as_slice(), a, b);
                        let sb = byte_offset(chars.as_slice(), g.0 + a);
                        let eb = byte_offset(chars.as_slice(), g.0 + b);
                        add_inline_candidate(cands, chars, base_line, token.as_slice(), sb, eb);
                    }
                },
                None => {},
            }
        }
        i = i + 1;
    }
}

/// Two candidates with the same type, canonical name and span.
pub open spec fn same_key(a: CandidateView, b: CandidateView) -> bool {
    a.kind == b.kind && a.name == b.name && a.start == b.start && a.end == b.end
}

/// The order of the extracted entities: by start, then end, then type,
/// then canonical name.
pub open spec fn cand_lt(a: CandidateView, b: CandidateView) -> bool {
    a.start < b.start || (a.start == b.start && (a.end < b.end || (a.end == b.end && (lex_lt(a.kind, b.kind)
        || (a.kind == b.kind && lex_lt(a.name, b.name))))))
}

/// `raw[k]` is the first of the most confident candidates with its key.
pub open spec fn first_best(raw: Seq<CandidateView>, k: int) -> bool {
    &&& 0 <= k < raw.len()
    &&& forall|j: int| 0 <= j < raw.len() && #[trigger] same_key(raw[j], raw[k]) ==> raw[j].confidence <= raw[k].confidence
    &&& forall|j: int| 0 <= j < k && #[trigger] same_key(raw[j], raw[k]) ==> raw[j].confidence < raw[k].confidence
}

/// `r` keeps one candidate per key of `raw`, the first of the most
/// confident ones, in entity order.
pub open spec fn deduplicated(raw: Seq<CandidateView>, r: Seq<CandidateView>) -> bool {
    &&& forall|i: int, j: int| 0 <= i < j < r.len() ==> cand_lt(#[trigger] r[i], #[trigger] r[j])
    &&& forall|i: int| 0 <= i < r.len() ==> kept_in(raw, #[trigger] r[i])
    &&& forall|k: int| 0 <= k < raw.len() ==> covered_by(r, #[trigger] raw[k])
}

/// `c` is the first of the most confident candidates of `raw` with its key.
pub open spec fn kept_in(raw: Seq<CandidateView>, c: CandidateView) -> bool {
    exists|k: int| first_best(raw, k) && raw[k] == c
}

/// Some candidate of `r` has the key of `c`.
pub open spec fn covered_by(r: Seq<CandidateView>, c: CandidateView) -> bool {
    exists|i: int| 0 <= i < r.len() && #[trigger] same_key(r[i], c)
}

proof fn lemma_cand_lt_not_same(a: CandidateView, b: CandidateView)
    requires
        same_key(a, b),
    ensures
        !cand_lt(a, b),
{
    lemma_lex_irreflexive(a.kind);
    lemma_lex_irreflexive(a.name);
}

proof fn lemma_cand_lt_total(a: CandidateView, b: CandidateView)
    requires
        !same_key(a, b),
    ensures
        cand_lt(a, b) || cand_lt(b, a),
{
    if a.kind != b.kind {
        lemma_lex_total(a.kind, b.kind);
    }
    if a.name != b.name {
        lemma_lex_total(a.name, b.name);
    }
}

proof fn lemma_cand_lt_transitive(a: CandidateView, b: CandidateView, c: CandidateView)
    requires
        cand_lt(a, b),
        cand_lt(b, c),
    ensures
        cand_lt(a, c),
{
    if a.start == b.start && b.start == c.start && a.end == b.end && b.end == c.end {
        if lex_lt(a.kind, b.kind) && lex_lt(b.kind, c.kind) {
            lemma_lex_transitive(a.kind, b.kind, c.kind);
        }
        if a.kind == b.kind && b.kind == c.kind && lex_lt(a.name, b.name) && lex_lt(b.name, c.name) {
            lemma_lex_transitive(a.name, b.name, c.name);
        }
    }
}

fn copy_candidate(c: &EntityCandidate) -> (r: EntityCandidate)
    ensures
        cand_view(r) == cand_view(*c),
{
    EntityCandidate {
        canonical_name: string_of(chars_of(c.canonical_name.as_str()).as_slice()),
        entity_type: string_of(chars_of(c.entity_type.as_str()).as_slice()),
        surface: string_of(chars_of(c.surface.as_str()).as_slice()),
        start_pos: c.start_pos,
        end_pos: c.end_pos,
        start_line: c.start_line,
        end_line: c.end_line,
        confidence: c.confidence,
        extractor: string_of(chars_of(c.extractor.as_str()).as_slice()),
    }
}

fn key_eq(a: &EntityCandidate, b: &EntityCandidate) -> (r: bool)
    ensures
        r == same_key(cand_view(*a), cand_view(*b)),
{
    a.start_pos == b.start_pos && a.end_pos == b.end_pos && crate::text::chars_equal(
        chars_of(a.entity_type.as_str()).as_slice(),
        chars_of(b.entity_type.as_str()).as_slice(),
    ) && crate::text::chars_equal(
        chars_of(a.canonical_name.as_str()).as_slice(),
        chars_of(b.canonical_name.as_str()).as_slice(),
    )
}

fn key_lt(a: &EntityCandidate, b: &EntityCandidate) -> (r: bool)
    ensures
        r == cand_lt(cand_view(*a), cand_view(*b)),
{
    if a.start_pos != b.start_pos {
        return a.start_pos < b.start_pos;
    }
    if a.end_pos != b.end_pos {
        return a.end_pos < b.end_pos;
    }
    let ak = chars_of(a.entity_type.as_str());
    let bk = chars_of(b.entity_type.as_str());
    if crate::text::chars_lt(ak.as_slice(), bk.as_slice()) {
        return true;
    }
    if !crate::text::chars_equal(ak.as_slice(), bk.as_slice()) {
        return false;
    }
    crate::text::chars_lt(chars_of(a.canonical_name.as_str()).as_slice(), chars_of(b.canonical_name.as_str()).as_slice())
}

fn find_key(r: &Vec<EntityCandidate>, c: &EntityCandidate) -> (o: Option<usize>)
    ensures
        match o {
            Some(i) => i < r@.len() && same_key(cand_view(r@[i as int]), cand_view(*c)),
            None => forall|i: int| 0 <= i < r@.len() ==> !same_key(#[trigger] cand_view(r@[i]), cand_view(*c)),
        },
{
    let mut i: usize = 0;
    while i < r.len()
        invariant
            i <= r@.len(),
            forall|j: int| 0 <= j < i ==> !same_key(#[trigger] cand_view(r@[j]), cand_view(*c)),
        decreases r@.len() - i,
    {
        if key_eq(&r[i], c) {
            return Some(i);
        }
        i = i + 1;
    }
    None
}

fn insert_position(r: &Vec<EntityCandidate>, c: &EntityCandidate) -> (p: usize)
    requires
        forall|i: int, j: int| 0 <= i < j < r@.len() ==> cand_lt(#[trigger] cand_view(r@[i]), #[trigger] cand_view(r@[j])),
        forall|i: int| 0 <= i < r@.len() ==> !same_key(#[trigger] cand_view(r@[i]), cand_view(*c)),
    ensures
        p <= r@.len(),
        forall|i: int| 0 <= i < p ==> cand_lt(#[trigger] cand_view(r@[i]), cand_view(*c)),
        forall|i: int| p <= i < r@.len() ==> cand_lt(cand_view(*c), #[trigger] cand_view(r@[i])),
{
    let mut p: usize = 0;
    while p < r.len() && key_lt(&r[p], c)
        invariant
            p <= r@.len(),
            forall|i: int| 0 <= i < p ==> cand_lt(#[trigger] cand_view(r@[i]), cand_view(*c)),
        decreases r@.len() - p,
    {
        p = p + 1;
    }
    proof {
        if p < r@.len() {
            lemma_cand_lt_total(cand_view(r@[p as int]), cand_view(*c));
            assert forall|i: int| p <= i < r@.len() implies cand_lt(cand_view(*c), #[trigger] cand_view(r@[i])) by {
                if i > p {
                    lemma_cand_lt_transitive(cand_view(*c), cand_view(r@[p as int]), cand_view(r@[i]));
                }
            }
        }
    }
    p
}

/// One candidate per (type, canonical name, span): the first of the most
/// confident ones, ordered by start, end, type and canonical name.
pub fn dedupe_candidates(cands: &Vec<EntityCandidate>) -> (r: Vec<EntityCandidate>)
    ensures
        deduplicated(cand_views(cands@), cand_views(r@)),
{
    let ghost raw = cand_views(cands@);
    let mut r: Vec<EntityCandidate> = Vec::new();
    let ghost mut wit: Seq<int> = seq![];
    let mut t: usize = 0;
    while t < cands.len()
        invariant
            t <= cands@.len(),
            raw == cand_views(cands@),
            wit.len() == r@.len(),
            forall|i: int, j: int| 0 <= i < j < r@.len() ==> cand_lt(#[trigger] cand_view(r@[i]), #[trigger] cand_view(r@[j])),
            forall|i: int| 0 <= i < r@.len() ==> 0 <= #[trigger] wit[i] < t && raw[wit[i]] == cand_view(r@[i]),
            forall|i: int, j: int| 0 <= i < r@.len() && 0 <= j < t && #[trigger] same_key(raw[j], cand_view(r@[i]))
                ==> raw[j].confidence <= cand_view(r@[i]).confidence,
            forall|i: int, j: int| 0 <= i < r@.len() && 0 <= j < wit[i] && #[trigger] same_key(raw[j], cand_view(r@[i]))
                ==> raw[j].confidence < cand_view(r@[i]).confidence,
            forall|k: int| #![trigger raw[k]] 0 <= k < t ==> exists|i: int| 0 <= i < r@.len() && same_key(#[trigger] cand_view(r@[i]), raw[k]),
        decreases cands@.len() - t,
    {
        let c = &cands[t];
        assert(raw[t as int] == cand_view(*c));
        match find_key(&r, c) {
            Some(i) => {
                proof {
                    assert forall|i2: int| 0 <= i2 < r@.len() && i2 != i implies !same_key(raw[t as int], #[trigger] cand_view(r@[i2])) by {
                        if same_key(raw[t as int], cand_view(r@[i2])) {
                            if i2 < i {
                                lemma_cand_lt_not_same(cand_view(r@[i2]), cand_view(r@[i as int]));
                            } else {
                                lemma_cand_lt_not_same(cand_view(r@[i as int]), cand_view(r@[i2]));
                            }
                        }
                    }
                }
                if r[i].confidence < c.confidence {
                    let ghost old_r = r@;
                    let ghost old_wit = wit;
                    let copy = copy_candidate(c);
                    r.set(i, copy);
                    proof {
                        wit = wit.update(i as int, t as int);
                        assert(cand_view(r@[i as int]) == raw[t as int]);
                        assert forall|i2: int| 0 <= i2 < r@.len() && i2 != i implies #[trigger] r@[i2] == old_r[i2] by {}
                        assert forall|i2: int, j: int| 0 <= i2 < r@.len() && 0 <= j < t + 1 && #[trigger] same_key(raw[j], cand_view(r@[i2]))
                            implies raw[j].confidence <= cand_view(r@[i2]).confidence by {
                            if i2 == i {
                                if j < t {
                                    assert(same_key(raw[j], cand_view(old_r[i as int])));
                                }
                            } else {
                                assert(r@[i2] == old_r[i2]);
                            }
                        }
                        assert forall|i2: int, j: int| 0 <= i2 < r@.len() && 0 <= j < wit[i2] && #[trigger] same_key(raw[j], cand_view(r@[i2]))
                            implies raw[j].confidence < cand_view(r@[i2]).confidence by {
                            if i2 == i {
                                assert(same_key(raw[j], cand_view(old_r[i as int])));
                            } else {
                                assert(r@[i2] == old_r[i2]);
                                assert(wit[i2] == old_wit[i2]);
                            }
                        }
                        assert forall|k: int| #![trigger raw[k]] 0 <= k < t + 1 implies exists|i2: int| 0 <= i2 < r@.len() && same_key(#[trigger] cand_view(r@[i2]), raw[k]) by {
                            if k == t {
                                assert(same_key(cand_view(r@[i as int]), raw[k]));
                            } else {
                                assert(raw[k] == raw[k]);
                                let i3 = choose|i3: int| 0 <= i3 < old_r.len() && same_key(#[trigger] cand_view(old_r[i3]), raw[k]);
                                if i3 == i {
                                    assert(same_key(cand_view(r@[i as int]), raw[k]));
                                } else {
                                    assert(r@[i3] == old_r[i3]);
                                    assert(same_key(cand_view(r@[i3]), raw[k]));
                                }
                            }
                        }
                    }
                } else {
                    proof {
                        assert forall|i2: int, j: int| 0 <= i2 < r@.len() && 0 <= j < t + 1 && #[trigger] same_key(raw[j], cand_view(r@[i2]))
                            implies raw[j].confidence <= cand_view(r@[i2]).confidence by {
                            if j == t && i2 != i {
                                assert(!same_key(raw[t as int], cand_view(r@[i2])));
                            }
                        }
                        assert(same_key(cand_view(r@[i as int]), raw[t as int]));
                    }
                }
            },
            None => {
                proof {
                    assert forall|j: int| 0 <= j < t implies !same_key(raw[j], raw[t as int]) by {
                        if same_key(raw[j], raw[t as int]) {
                            assert(raw[j] == raw[j]);
                            let i2 = choose|i2: int| 0 <= i2 < r@.len() && same_key(#[trigger] cand_view(r@[i2]), raw[j]);
                            assert(!same_key(cand_view(r@[i2]), cand_view(*c)));
                        }
                    }
                }
                let p = insert_position(&r, c);
                let ghost old_r = r@;
                let ghost old_wit = wit;
                let copy = copy_candidate(c);
                r.insert(p, copy);
                proof {
                    wit = wit.insert(p as int, t as int);
                    assert forall|i2: int| 0 <= i2 < p implies #[trigger] r@[i2] == old_r[i2] && wit[i2] == old_wit[i2] by {}
                    assert forall|i2: int| p < i2 < r@.len() implies #[trigger] r@[i2] == old_r[i2 - 1] && wit[i2] == old_wit[i2 - 1] by {}
                    assert(cand_view(r@[p as int]) == raw[t as int]);
                    assert forall|i2: int, j: int| 0 <= i2 < r@.len() && 0 <= j < t + 1 && #[trigger] same_key(raw[j], cand_view(r@[i2]))
                        implies raw[j].confidence <= cand_view(r@[i2]).confidence by {
                        if i2 == p {
                            if j < t {
                                assert(!same_key(raw[j], raw[t as int]));
                            }
                        } else if i2 < p {
                            assert(r@[i2] == old_r[i2]);
                            if j == t {
                                assert(!same_key(cand_view(old_r[i2]), cand_view(*c)));
                            }
                        } else {
                            assert(r@[i2] == old_r[i2 - 1]);
                            if j == t {
                                assert(!same_key(cand_view(old_r[i2 - 1]), cand_view(*c)));
                            }
                        }
                    }
                    assert forall|i2: int, j: int| 0 <= i2 < r@.len() && 0 <= j < wit[i2] && #[trigger] same_key(raw[j], cand_view(r@[i2]))
                        implies raw[j].confidence < cand_view(r@[i2]).confidence by {
                        if i2 == p {
                            assert(!same_key(raw[j], raw[t as int]));
                        } else if i2 < p {
                            assert(r@[i2] == old_r[i2]);
                        } else {
                            assert(r@[i2] == old_r[i2 - 1]);
                        }
                    }
                    assert forall|k: int| #![trigger raw[k]] 0 <= k < t + 1 implies exists|i2: int| 0 <= i2 < r@.len() && same_key(#[trigger] cand_view(r@[i2]), raw[k]) by {
                        if k == t {
                            assert(same_key(cand_view(r@[p as int]), raw[k]));
                        } else {
                            assert(raw[k] == raw[k]);
                            let i3 = choose|i3: int| 0 <= i3 < old_r.len() && same_key(#[trigger] cand_view(old_r[i3]), raw[k]);
                            if i3 < p {
                                assert(same_key(cand_view(r@[i3]), raw[k]));
                            } else {
                                assert(same_key(cand_view(r@[i3 + 1]), raw[k]));
                            }
                        }
                    }
                }
            },
        }
        t = t + 1;
    }
    proof {
        let rv = cand_views(r@);
        assert forall|i: int, j: int| 0 <= i < j < rv.len() implies cand_lt(#[trigger] rv[i], #[trigger] rv[j]) by {
            assert(cand_lt(cand_view(r@[i]), cand_view(r@[j])));
        }
        assert forall|i: int| 0 <= i < rv.len() implies kept_in(raw, #[trigger] rv[i]) by {
            let k = wit[i];
            assert(raw[k] == cand_view(r@[i]));
            assert forall|j: int| 0 <= j < raw.len() && #[trigger] same_key(raw[j], raw[k]) implies raw[j].confidence <= raw[k].confidence by {
                assert(same_key(raw[j], cand_view(r@[i])));
            }
            assert forall|j: int| 0 <= j < k && #[trigger] same_key(raw[j], raw[k]) implies raw[j].confidence < raw[k].confidence by {
                assert(same_key(raw[j], cand_view(r@[i])));
            }
            assert(first_best(raw, k));
            assert(raw[k] == rv[i]);
        }
        assert forall|k: int| 0 <= k < raw.len() implies covered_by(rv, #[trigger] raw[k]) by {
            let i = choose|i: int| 0 <= i < r@.len() && same_key(#[trigger] cand_view(r@[i]), raw[k]);
            assert(rv[i] == cand_view(r@[i]));
            assert(same_key(rv[i], raw[k]));
        }
    }
    r
}

/// Every candidate the rules find in `text`, in rule order: declarations
/// of Rust and Go functions, types, modules and imports, file paths, then
/// inline code spans.
pub open spec fn raw_candidates(text: Seq<char>, base: nat) -> Seq<CandidateView> {
    let rust = regex_captures(RUST_FUNCTION@, text);
    let go = regex_captures(GO_FUNCTION@, text);
    let types = regex_captures(TYPE_DECLARATION@, text);
    let modules = regex_captures(MODULE_DECLARATION@, text);
    let imports = regex_captures(IMPORT@, text);
    let paths = regex_find_spans(PATH@, false, text);
    let inline = regex_captures(INLINE@, text);
    capture_cands(text, base, rust, rust.len(), "function"@, "rule:rust-function"@, 95)
        + capture_cands(text, base, go, go.len(), "function"@, "rule:go-function"@, 95)
        + capture_cands(text, base, types, types.len(), "type"@, "rule:type-declaration"@, 95)
        + capture_cands(text, base, modules, modules.len(), "module"@, "rule:module-declaration"@, 90)
        + capture_cands(text, base, imports, imports.len(), "module"@, "rule:import"@, 85)
        + path_cands(text, base, paths, paths.len())
        + inline_cands(text, base, inline, inline.len())
}

/// Every candidate the rules find, before deduplication.
pub fn collect_candidates(text: &str, base_line: usize) -> (r: Vec<EntityCandidate>)
    requires
        utf8_len(text@) <= usize::MAX,
        base_line + text@.len() <= usize::MAX,
    ensures
        cand_views(r@) == raw_candidates(text@, base_line as nat),
{
    let chars = chars_of(text);
    let mut cands: Vec<EntityCandidate> = Vec::new();
    assert(cand_views(cands@) =~= seq![]);
    add_capture_entities(&mut cands, text, &chars, base_line, RUST_FUNCTION, "function", "rule:rust-function", 95);
    add_capture_entities(&mut cands, text, &chars, base_line, GO_FUNCTION, "function", "rule:go-function", 95);
    add_capture_entities(&mut cands, text, &chars, base_line, TYPE_DECLARATION, "type", "rule:type-declaration", 95);
    add_capture_entities(&mut cands, text, &chars, base_line, MODULE_DECLARATION, "module", "rule:module-declaration",
        90);
    add_capture_entities(&mut cands, text, &chars, base_line, IMPORT, "module", "rule:import", 85);
    add_path_entities(&mut cands, text, &chars, base_line);
    add_inline_entities(&mut cands, text, &chars, base_line);
    assert(cand_views(cands@) =~= raw_candidates(text@, base_line as nat));
    cands
}

/// The technical entities of a chunk whose first line is `base_line`:
/// the rule candidates, one per type, canonical name and span.
pub fn extract_entities(text: &str, base_line: usize) -> (r: Vec<EntityCandidate>)
    requires
        utf8_len(text@) <= usize::MAX,
        base_line + text@.len() <= usize::MAX,
    ensures
        deduplicated(raw_candidates(text@, base_line as nat), cand_views(r@)),
{
    let raw = collect_candidates(text, base_line);
    dedupe_candidates(&raw)
}

} // verus!
