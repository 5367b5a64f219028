//! Markdown structure the index reads: headings, heading-scoped chunks and
//! explicit `[[wiki links]]` outside code.

use vstd::prelude::*;
use crate::digest::{hash_text, text_hash};
use crate::pattern::{capture_views, captures, regex_captures};
use crate::shared::forward_slashes;
use crate::text::{
    chars_of, has_prefix, is_blank, join, lines, push_char, push_chars, slice_chars, split_lines,
    starts_with, str_views, string_of, trim, trim_chars, trim_start, views,
};

verus! {

// ---------------------------------------------------------------------------
// Headings
// ---------------------------------------------------------------------------
/// Number of leading copies of `c`.
pub open spec fn run_len(s: Seq<char>, c: char) -> nat
    decreases s.len(),
{
    if s.len() > 0 && s[0] == c {
        1 + run_len(s.drop_first(), c)
    } else {
        0
    }
}

/// Number of trailing copies of `c`.
pub open spec fn tail_run_len(s: Seq<char>, c: char) -> nat
    decreases s.len(),
{
    if s.len() > 0 && s.last() == c {
        1 + tail_run_len(s.drop_last(), c)
    } else {
        0
    }
}

/// `str::trim_end_matches(c)`.
pub open spec fn trim_end_char(s: Seq<char>, c: char) -> Seq<char> {
    s.take(s.len() - tail_run_len(s, c))
}

/// An ATX heading in already-trimmed text: one to six `#`, a space, and
/// the title without closing `#`s.
pub open spec fn heading_of(t: Seq<char>) -> Option<(nat, Seq<char>)> {
    let level = run_len(t, '#');
    if level == 0 || level > 6 || !(level < t.len() && t[level as int] == ' ') {
        None
    } else {
        Some((level, trim(trim_end_char(trim(t.skip(level + 1 as int)), '#'))))
    }
}

proof fn lemma_run_len(s: Seq<char>, c: char, k: int)
    requires
        0 <= k <= s.len(),
        forall|j: int| 0 <= j < k ==> #[trigger] s[j] == c,
        k == s.len() || s[k] != c,
    ensures
        run_len(s, c) == k,
    decreases k,
{
    if k > 0 {
        lemma_run_len(s.drop_first(), c, k - 1);
    }
}

proof fn lemma_tail_run_len(s: Seq<char>, c: char, k: int)
    requires
        0 <= k <= s.len(),
        forall|j: int| s.len() - k <= j < s.len() ==> #[trigger] s[j] == c,
        k == s.len() || s[s.len() - k - 1] != c,
    ensures
        tail_run_len(s, c) == k,
    decreases k,
{
    if k > 0 {
        lemma_tail_run_len(s.drop_last(), c, k - 1);
    }
}

fn trim_end_matching(v: &[char], c: char) -> (r: Vec<char>)
    ensures
        r@ == trim_end_char(v@, c),
{
    let mut end = v.len();
    while end > 0 && v[end - 1] == c
        invariant
            end <= v@.len(),
            forall|j: int| end <= j < v@.len() ==> #[trigger] v@[j] == c,
        decreases end,
    {
        end = end - 1;
    }
    proof {
        lemma_tail_run_len(v@, c, v@.len() - end);
    }
    slice_chars(v, 0, end)
}

fn heading_in(t: &[char]) -> (r: Option<(usize, String)>)
    ensures
        match heading_of(t@) {
            Some((level, title)) => r matches Some((l, s)) && l == level && s@ == title,
            None => r is None,
        },
{
    let mut level: usize = 0;
    while level < t.len() && t[level] == '#'
        invariant
            level <= t@.len(),
            forall|j: int| 0 <= j < level ==> t@[j] == '#',
        decreases t@.len() - level,
    {
        level = level + 1;
    }
    proof {
        lemma_run_len(t@, '#', level as int);
    }
    if level == 0 || level > 6 || !(level < t.len() && t[level] == ' ') {
        return None;
    }
    let rest = slice_chars(t, level + 1, t.len());
    assert(rest@ =~= t@.skip(level + 1));
    let a = trim_chars(rest.as_slice());
    let b = trim_end_matching(a.as_slice(), '#');
    let c = trim_chars(b.as_slice());
    Some((level, string_of(c.as_slice())))
}

/// A heading line: its level and title.
pub fn parse_heading(line: &str) -> (r: Option<(usize, String)>)
    ensures
        match heading_of(trim_start(line@)) {
            Some((level, title)) => r matches Some((l, s)) && l == level && s@ == title,
            None => r is None,
        },
{
    let v = chars_of(line);
    let (a, _) = crate::text::trim_bounds(v.as_slice());
    let t = slice_chars(v.as_slice(), a, v.len());
    assert(t@ =~= trim_start(line@));
    heading_in(t.as_slice())
}

/// The title of the first heading among the lines `ls`.
pub open spec fn first_heading_in(ls: Seq<Seq<char>>) -> Option<Seq<char>>
    decreases ls.len(),
{
    if ls.len() == 0 {
        None
    } else {
        match heading_of(trim(ls[0])) {
            Some((_, title)) => Some(title),
            None => first_heading_in(ls.drop_first()),
        }
    }
}

/// The title of the first heading of a document.
pub fn first_heading(text: &str) -> (r: Option<String>)
    ensures
        match first_heading_in(lines(text@)) {
            Some(t) => r matches Some(s) && s@ == t,
            None => r is None,
        },
{
    let tv = chars_of(text);
    let ls = split_lines(tv.as_slice());
    let ghost all = views(ls@);
    let mut i: usize = 0;
    assert(all.skip(0) =~= all);
    while i < ls.len()
        invariant
            i <= ls@.len(),
            all == views(ls@),
            all == lines(text@),
            first_heading_in(all) == first_heading_in(all.skip(i as int)),
        decreases ls@.len() - i,
    {
        proof {
            assert(all.skip(i as int)[0] == ls@[i as int]@);
            assert(all.skip(i as int).drop_first() =~= all.skip(i + 1));
        }
        let t = trim_chars(ls[i].as_slice());
        match heading_in(t.as_slice()) {
            Some((_, title)) => {
                return Some(title);
            },
            None => {},
        }
        i = i + 1;
    }
    None
}

// ---------------------------------------------------------------------------
// Links outside code
// ---------------------------------------------------------------------------
/// A line with inline code spans blanked: each backtick and each character
/// between backticks becomes a space.
pub open spec fn without_inline_code(line: Seq<char>) -> Seq<char>
    decreases line.len(),
{
    if line.len() == 0 {
        seq![]
    } else {
        let prev = without_inline_code(line.drop_last());
        let c = line.last();
        prev.push(if c == '`' || in_code_before(line.drop_last()) {
            ' '
        } else {
            c
        })
    }
}

/// Whether an odd number of backticks precede the end of `s`.
pub open spec fn in_code_before(s: Seq<char>) -> bool
    decreases s.len(),
{
    if s.len() == 0 {
        false
    } else if s.last() == '`' {
        !in_code_before(s.drop_last())
    } else {
        in_code_before(s.drop_last())
    }
}

/// Blanks inline code in a line.
pub fn strip_inline_code(line: &str) -> (r: String)
    ensures
        r@ == without_inline_code(line@),
{
    let v = chars_of(line);
    let mut out = String::new();
    let mut in_code = false;
    let mut i: usize = 0;
    assert(v@.take(0) =~= Seq::<char>::empty());
    while i < v.len()
        invariant
            i <= v@.len(),
            v@ == line@,
            out@ == without_inline_code(v@.take(i as int)),
            in_code == in_code_before(v@.take(i as int)),
        decreases v@.len() - i,
    {
        let c = v[i];
        proof {
            assert(v@.take(i + 1).drop_last() =~= v@.take(i as int));
            assert(v@.take(i + 1).last() == c);
        }
        if c == '`' {
            in_code = !in_code;
            push_char(&mut out, ' ');
        } else if in_code {
            push_char(&mut out, ' ');
        } else {
            push_char(&mut out, c);
        }
        i = i + 1;
    }
    assert(v@.take(v@.len() as int) =~= v@);
    out
}

/// A fence line: ``` or ~~~ after leading whitespace.
pub open spec fn is_fence(line: Seq<char>) -> bool {
    has_prefix(trim_start(line), "```"@) || has_prefix(trim_start(line), "~~~"@)
}

/// The text with fenced blocks and inline code blanked, line by line: fence
/// lines and fenced lines become empty, every line keeps its `'\n'`.
pub open spec fn without_code_lines(ls: Seq<Seq<char>>) -> (Seq<char>, bool)
    decreases ls.len(),
{
    if ls.len() == 0 {
        (seq![], false)
    } else {
        let (out, fence) = without_code_lines(ls.drop_last());
        let line = ls.last();
        if is_fence(line) {
            (out.push('\n'), !fence)
        } else if fence {
            (out.push('\n'), fence)
        } else {
            (out + without_inline_code(line).push('\n'), fence)
        }
    }
}

/// Number of fence lines among `ls`.
pub open spec fn fence_count(ls: Seq<Seq<char>>) -> nat
    decreases ls.len(),
{
    if ls.len() == 0 {
        0
    } else {
        fence_count(ls.drop_last()) + if is_fence(ls.last()) { 1nat } else { 0nat }
    }
}

/// Fence lines toggle fenced code: after the lines `ls`, code is open
/// exactly when an odd number of them were fence lines; a further line
/// keeps its text (inline code blanked) exactly when it is not a fence line
/// and an even number of fence lines came before it, and is blanked
/// otherwise.
pub proof fn fences_toggle_code(ls: Seq<Seq<char>>, line: Seq<char>)
    ensures
        without_code_lines(ls).1 == (fence_count(ls) % 2 == 1),
        without_code_lines(ls.push(line)).0 == without_code_lines(ls).0 + (if !is_fence(line) && fence_count(ls)
            % 2 == 0 {
            without_inline_code(line)
        } else {
            seq![]
        }).push('\n'),
    decreases ls.len(),
{
    if ls.len() > 0 {
        fences_toggle_code(ls.drop_last(), ls.last());
    }
    assert(ls.push(line).drop_last() =~= ls);
}

pub open spec fn without_code(text: Seq<char>) -> Seq<char> {
    without_code_lines(lines(text)).0
}

fn fence_line(line: &[char]) -> (r: bool)
    ensures
        r == is_fence(line@),
{
    let (a, _) = crate::text::trim_bounds(line);
    let t = slice_chars(line, a, line.len());
    assert(t@ =~= trim_start(line@));
    let f1 = chars_of("```");
    let f2 = chars_of("~~~");
    starts_with(t.as_slice(), f1.as_slice()) || starts_with(t.as_slice(), f2.as_slice())
}

/// The text with code blanked so that links in code are not read.
pub fn markdown_without_code(text: &str) -> (r: String)
    ensures
        r@ == without_code(text@),
{
    let tv = chars_of(text);
    let ls = split_lines(tv.as_slice());
    let ghost all = views(ls@);
    let mut out = String::new();
    let mut in_fence = false;
    let mut i: usize = 0;
    assert(all.take(0) =~= Seq::<Seq<char>>::empty());
    while i < ls.len()
        invariant
            i <= ls@.len(),
            all == views(ls@),
            all == lines(text@),
            (out@, in_fence) == without_code_lines(all.take(i as int)),
        decreases ls@.len() - i,
    {
        let line = &ls[i];
        proof {
            assert(all.take(i + 1).drop_last() =~= all.take(i as int));
            assert(all.take(i + 1).last() == line@);
        }
        if fence_line(line.as_slice()) {
            in_fence = !in_fence;
            push_char(&mut out, '\n');
        } else if in_fence {
            push_char(&mut out, '\n');
        } else {
            let stripped = strip_inline_code(string_of(line.as_slice()).as_str());
            out.append(stripped.as_str());
            push_char(&mut out, '\n');
        }
        i = i + 1;
    }
    assert(all.take(all.len() as int) =~= all);
    out
}

/// Number of leading `./` pairs.
pub open spec fn dot_slash_pairs(s: Seq<char>) -> nat
    decreases s.len(),
{
    if s.len() >= 2 && s[0] == '.' && s[1] == '/' {
        1 + dot_slash_pairs(s.skip(2))
    } else {
        0
    }
}

/// Number of trailing `.md` suffixes.
pub open spec fn md_suffixes(s: Seq<char>) -> nat
    decreases s.len(),
{
    if s.len() >= 3 && s.skip(s.len() - 3) == seq!['.', 'm', 'd'] {
        1 + md_suffixes(s.take(s.len() - 3))
    } else {
        0
    }
}

/// `s` without any `./` prefixes.
pub open spec fn skip_dot_slashes(s: Seq<char>) -> Seq<char> {
    s.skip((2 * dot_slash_pairs(s)) as int)
}

/// `s` without any `.md` suffixes.
pub open spec fn drop_md(s: Seq<char>) -> Seq<char> {
    s.take(s.len() - 3 * md_suffixes(s))
}

/// A link target as stored: trimmed, forward slashes, no leading `./`, no
/// trailing `.md`.
pub open spec fn link_target(value: Seq<char>) -> Seq<char> {
    drop_md(skip_dot_slashes(forward_slashes(trim(value))))
}

proof fn lemma_dot_slash_pairs(s: Seq<char>)
    ensures
        2 * dot_slash_pairs(s) <= s.len(),
    decreases s.len(),
{
    if s.len() >= 2 && s[0] == '.' && s[1] == '/' {
        lemma_dot_slash_pairs(s.skip(2));
    }
}

proof fn lemma_md_suffixes(s: Seq<char>)
    ensures
        3 * md_suffixes(s) <= s.len(),
    decreases s.len(),
{
    if s.len() >= 3 && s.skip(s.len() - 3) == seq!['.', 'm', 'd'] {
        lemma_md_suffixes(s.take(s.len() - 3));
    }
}

/// Strips every leading `./`.
pub fn strip_dot_slashes(v: &[char]) -> (r: Vec<char>)
    ensures
        r@ == skip_dot_slashes(v@),
{
    let mut start: usize = 0;
    proof {
        lemma_dot_slash_pairs(v@);
        assert(v@.skip(0) =~= v@);
    }
    while v.len() - start >= 2 && v[start] == '.' && v[start + 1] == '/'
        invariant
            start <= v@.len(),
            2 * dot_slash_pairs(v@) <= v@.len(),
            v@.skip(start as int).skip(2 * dot_slash_pairs(v@.skip(start as int)) as int) == skip_dot_slashes(v@),
        decreases v@.len() - start,
    {
        proof {
            let t = v@.skip(start as int);
            assert(t[0] == '.' && t[1] == '/');
            assert(t.skip(2) =~= v@.skip(start + 2));
            lemma_dot_slash_pairs(t.skip(2));
            assert(dot_slash_pairs(t) == 1 + dot_slash_pairs(t.skip(2)));
            assert(t.skip(2 * dot_slash_pairs(t) as int) =~= t.skip(2).skip(2 * dot_slash_pairs(t.skip(2)) as int));
        }
        start = start + 2;
    }
    proof {
        let t = v@.skip(start as int);
        assert(dot_slash_pairs(t) == 0) by {
            if t.len() >= 2 {
                assert(t[0] == v@[start as int] && t[1] == v@[start + 1]);
            }
        }
        assert(t.skip(0) =~= t);
    }
    slice_chars(v, start, v.len())
}

/// Strips every trailing `.md`.
pub fn strip_md_suffixes(v: &[char]) -> (r: Vec<char>)
    ensures
        r@ == drop_md(v@),
{
    let mut end = v.len();
    proof {
        lemma_md_suffixes(v@);
        assert(v@.take(end as int) =~= v@);
    }
    while end >= 3 && v[end - 3] == '.' && v[end - 2] == 'm' && v[end - 1] == 'd'
        invariant
            end <= v@.len(),
            v@.take(end as int).take(end - 3 * md_suffixes(v@.take(end as int))) == drop_md(v@),
        decreases end,
    {
        proof {
            let t = v@.take(end as int);
            assert(t.skip(t.len() - 3) =~= seq!['.', 'm', 'd']);
            assert(t.take(t.len() - 3) =~= v@.take(end - 3));
            lemma_md_suffixes(t.take(t.len() - 3));
            assert(md_suffixes(t) == 1 + md_suffixes(t.take(t.len() - 3)));
            assert(t.take(end - 3 * md_suffixes(t)) =~= v@.take(end - 3).take((end - 3) - 3 * md_suffixes(v@.take(end - 3))));
        }
        end = end - 3;
    }
    proof {
        let t = v@.take(end as int);
        assert(md_suffixes(t) == 0) by {
            if t.len() >= 3 {
                if t.skip(t.len() - 3) == seq!['.', 'm', 'd'] {
                    assert(t.skip(t.len() - 3)[0] == v@[end - 3]);
                    assert(t.skip(t.len() - 3)[1] == v@[end - 2]);
                    assert(t.skip(t.len() - 3)[2] == v@[end - 1]);
                }
            }
        }
        assert(t.take(end as int) =~= t);
    }
    slice_chars(v, 0, end)
}

/// Backslashes turned into forward slashes.
pub fn to_forward_slashes(v: &[char]) -> (r: Vec<char>)
    ensures
        r@ == forward_slashes(v@),
{
    let mut r: Vec<char> = Vec::new();
    let mut i: usize = 0;
    while i < v.len()
        invariant
            i <= v@.len(),
            r@ =~= forward_slashes(v@.take(i as int)),
        decreases v@.len() - i,
    {
        r.push(if v[i] == '\\' { '/' } else { v[i] });
        i = i + 1;
        assert(r@ =~= forward_slashes(v@.take(i as int)));
    }
    assert(v@.take(v@.len() as int) =~= v@);
    r
}

/// Normalises a wiki-link target: trimmed, forward slashes, no leading
/// `./`, no trailing `.md`.
pub fn normalize_link_target(value: &str) -> (r: String)
    ensures
        r@ == link_target(value@),
{
    let v = chars_of(value);
    let t = trim_chars(v.as_slice());
    let f = to_forward_slashes(t.as_slice());
    let s = strip_dot_slashes(f.as_slice());
    let d = strip_md_suffixes(s.as_slice());
    string_of(d.as_slice())
}

/// The wiki-link syntax: `[[target]]` or `[[target|text]]`.
pub const WIKI_LINK_PATTERN: &'static str = "\\[\\[([^\\]|]+)(?:\\|([^\\]]+))?\\]\\]";

/// An explicit link between pages.
pub struct WikiLink {
    pub target_path: String,
    pub link_text: Option<String>,
}

/// The link a match of the wiki-link pattern in `s` declares, if its
/// target is not empty.
pub open spec fn link_of_match(s: Seq<char>, groups: Seq<Option<(usize, usize)>>) -> Option<(Seq<char>, Option<Seq<char>>)> {
    if groups.len() > 1 && groups[1] is Some {
        let (a, b) = groups[1]->0;
        let target = link_target(s.subrange(a as int, b as int));
        if target.len() == 0 {
            None
        } else {
            Some((
                target,
                if groups.len() > 2 && groups[2] is Some {
                    let (c, d) = groups[2]->0;
                    Some(trim(s.subrange(c as int, d as int)))
                } else {
                    None
                },
            ))
        }
    } else {
        None
    }
}

/// The links declared by the matches `ms` in `s`, in order.
pub open spec fn links_of_matches(s: Seq<char>, ms: Seq<Seq<Option<(usize, usize)>>>) -> Seq<(Seq<char>, Option<Seq<char>>)>
    decreases ms.len(),
{
    if ms.len() == 0 {
        seq![]
    } else {
        let prev = links_of_matches(s, ms.drop_last());
        match link_of_match(s, ms.last()) {
            Some(l) => prev.push(l),
            None => prev,
        }
    }
}

pub open spec fn link_views(ls: Seq<WikiLink>) -> Seq<(Seq<char>, Option<Seq<char>>)> {
    Seq::new(ls.len(), |i: int| (ls[i].target_path@, match ls[i].link_text {
        Some(t) => Some(t@),
        None => None,
    }))
}

/// The explicit wiki links of a document, ignoring code: one per match of
/// the wiki-link pattern with a non-empty target.
pub fn extract_wiki_links(text: &str) -> (r: Vec<WikiLink>)
    ensures
        link_views(r@) == links_of_matches(
            without_code(text@),
            regex_captures(WIKI_LINK_PATTERN@, without_code(text@)),
        ),
{
    let searchable = markdown_without_code(text);
    let mut links: Vec<WikiLink> = Vec::new();
    let found = captures(WIKI_LINK_PATTERN, searchable.as_str());
    let s = chars_of(searchable.as_str());
    let ghost ms = capture_views(found@);
    let mut i: usize = 0;
    assert(ms.take(0) =~= Seq::<Seq<Option<(usize, usize)>>>::empty());
    while i < found.len()
        invariant
            i <= found@.len(),
            ms == capture_views(found@),
            s@ == searchable@,
            crate::pattern::spans_within(ms, s@.len()),
            link_views(links@) == links_of_matches(s@, ms.take(i as int)),
        decreases found@.len() - i,
    {
        let groups = &found[i];
        proof {
            assert(ms.take(i + 1).drop_last() =~= ms.take(i as int));
            assert(ms.take(i + 1).last() == groups@);
            assert(ms[i as int] == groups@);
        }
        if groups.len() > 1 {
            match groups[1] {
                Some((a, b)) => {
                    proof {
                        assert(groups@[1] == ms[i as int][1]);
                    }
                    let raw = string_of(slice_chars(s.as_slice(), a, b).as_slice());
                    let target = normalize_link_target(raw.as_str());
                    if target.unicode_len() > 0 {
                        let link_text = if groups.len() > 2 {
                            match groups[2] {
                                Some((c, d)) => {
                                    proof {
                                        assert(groups@[2] == ms[i as int][2]);
                                    }
                                    let t = trim_chars(slice_chars(s.as_slice(), c, d).as_slice());
                                    Some(string_of(t.as_slice()))
                                },
                                None => None,
                            }
                        } else {
                            None
                        };
                        let ghost before = link_views(links@);
                        links.push(WikiLink { target_path: target, link_text });
                        proof {
                            assert(link_views(links@) =~= before.push(link_of_match(s@, groups@)->0));
                        }
                    }
                },
                None => {},
            }
        }
        i = i + 1;
    }
    assert(ms.take(ms.len() as int) =~= ms);
    links
}


// ---------------------------------------------------------------------------
// Chunks
// ---------------------------------------------------------------------------
/// A heading-scoped piece of a page, with its 1-based line range.
pub struct Chunk {
    pub ordinal: usize,
    pub heading_path: String,
    pub start_line: usize,
    pub end_line: usize,
    pub text: String,
    pub text_hash: String,
}

/// `(ordinal, heading path, start line, end line, text)`.
pub type ChunkView = (nat, Seq<char>, nat, nat, Seq<char>);

/// The chunker's state after some lines.
pub struct ChunkState {
    pub chunks: Seq<ChunkView>,
    pub stack: Seq<(nat, Seq<char>)>,
    pub current: Seq<(nat, Seq<char>)>,
    pub heading: Seq<char>,
    pub chars: nat,
}

/// Trailing blank lines of the pending lines.
pub open spec fn trailing_blank(ls: Seq<(nat, Seq<char>)>) -> nat
    decreases ls.len(),
{
    if ls.len() > 0 && is_blank(ls.last().1) {
        1 + trailing_blank(ls.drop_last())
    } else {
        0
    }
}

pub open spec fn line_texts(ls: Seq<(nat, Seq<char>)>) -> Seq<Seq<char>> {
    Seq::new(ls.len(), |i: int| ls[i].1)
}

/// Closes the pending lines into a chunk, without trailing blank lines;
/// nothing when only blank lines are pending.
pub open spec fn flush(chunks: Seq<ChunkView>, current: Seq<(nat, Seq<char>)>, heading: Seq<char>) -> Seq<ChunkView> {
    let kept = current.take(current.len() - trailing_blank(current));
    if kept.len() == 0 {
        chunks
    } else {
        chunks.push((chunks.len(), heading, kept[0].0, kept.last().0, join(line_texts(kept), "\n"@)))
    }
}

/// The heading stack without the entries at `level` or deeper at its top.
pub open spec fn pop_to(stack: Seq<(nat, Seq<char>)>, level: nat) -> Seq<(nat, Seq<char>)>
    decreases stack.len(),
{
    if stack.len() > 0 && stack.last().0 >= level {
        pop_to(stack.drop_last(), level)
    } else {
        stack
    }
}

pub open spec fn stack_names(stack: Seq<(nat, Seq<char>)>) -> Seq<Seq<char>> {
    Seq::new(stack.len(), |i: int| stack[i].1)
}

/// One line (numbered `n`) read by the chunker.
pub open spec fn chunk_step(st: ChunkState, n: nat, raw: Seq<char>, max: nat) -> ChunkState {
    let st1 = match heading_of(trim_start(raw)) {
        Some((level, title)) => {
            let stack = pop_to(st.stack, level).push((level, title));
            ChunkState {
                chunks: flush(st.chunks, st.current, st.heading),
                stack,
                current: seq![],
                heading: join(stack_names(stack), " > "@),
                chars: 0,
            }
        },
        None => st,
    };
    let lc = raw.len() + 1;
    let st2 = if st1.chars > 0 && st1.chars + lc > max {
        ChunkState { chunks: flush(st1.chunks, st1.current, st1.heading), current: seq![], chars: 0, ..st1 }
    } else {
        st1
    };
    let st3 = ChunkState { current: st2.current.push((n, raw)), chars: st2.chars + lc, ..st2 };
    if is_blank(raw) && st3.current.len() > 1 && st3.chars >= max / 2 {
        ChunkState { chunks: flush(st3.chunks, st3.current, st3.heading), current: seq![], chars: 0, ..st3 }
    } else {
        st3
    }
}

/// The chunker after the lines `ls`, numbered from 1.
pub open spec fn chunk_fold(ls: Seq<Seq<char>>, max: nat) -> ChunkState
    decreases ls.len(),
{
    if ls.len() == 0 {
        ChunkState { chunks: seq![], stack: seq![], current: seq![], heading: seq![], chars: 0 }
    } else {
        chunk_step(chunk_fold(ls.drop_last(), max), ls.len(), ls.last(), max)
    }
}

/// The chunks of a document: lines grouped under their heading path, cut
/// at headings, before a line that would exceed `max` characters, and at a
/// blank line once half of `max` is reached.
pub open spec fn chunks_of(text: Seq<char>, max: nat) -> Seq<ChunkView> {
    let st = chunk_fold(lines(text), max);
    flush(st.chunks, st.current, st.heading)
}

/// Heading levels strictly increase along the stack.
pub open spec fn levels_increase(stack: Seq<(nat, Seq<char>)>) -> bool {
    forall|i: int, j: int| 0 <= i < j < stack.len() ==> (#[trigger] stack[i]).0 < (#[trigger] stack[j]).0
}

proof fn lemma_pop_to(stack: Seq<(nat, Seq<char>)>, level: nat)
    requires
        levels_increase(stack),
    ensures
        pop_to(stack, level).len() <= stack.len(),
        pop_to(stack, level) == stack.take(pop_to(stack, level).len() as int),
        forall|i: int| 0 <= i < pop_to(stack, level).len() ==> (#[trigger] stack[i]).0 < level,
        pop_to(stack, level).len() < stack.len() ==> stack[pop_to(stack, level).len() as int].0 >= level,
    decreases stack.len(),
{
    if stack.len() > 0 && stack.last().0 >= level {
        let d = stack.drop_last();
        assert forall|i: int, j: int| 0 <= i < j < d.len() implies (#[trigger] d[i]).0 < (#[trigger] d[j]).0 by {
            assert(d[i] == stack[i] && d[j] == stack[j]);
        }
        lemma_pop_to(d, level);
        let k = pop_to(d, level).len();
        assert forall|i: int| 0 <= i < k implies (#[trigger] stack[i]).0 < level by {
            assert(d[i] == stack[i]);
        }
        assert(d.take(k as int) =~= stack.take(k as int));
        if k < d.len() {
            assert(d[k as int] == stack[k as int]);
        }
    } else {
        assert(stack.take(stack.len() as int) =~= stack);
        assert forall|i: int| 0 <= i < stack.len() implies (#[trigger] stack[i]).0 < level by {
            if i < stack.len() - 1 {
                assert(stack[i].0 < stack[stack.len() - 1].0);
            }
        }
    }
}

/// A heading of level `L` closes every open heading of level `L` or
/// deeper and keeps the shallower ones: the open headings always have
/// strictly increasing levels, the heading path is their titles joined by
/// ` > `, and after a heading line the open headings are those of lower
/// level that were open before, then that heading.
pub proof fn headings_nest(ls: Seq<Seq<char>>, max: nat)
    ensures
        levels_increase(chunk_fold(ls, max).stack),
        chunk_fold(ls, max).heading == join(stack_names(chunk_fold(ls, max).stack), " > "@),
        ls.len() > 0 ==> match heading_of(trim_start(ls.last())) {
            Some((level, title)) => {
                let before = chunk_fold(ls.drop_last(), max).stack;
                let after = chunk_fold(ls, max).stack;
                let k = after.len() - 1;
                &&& after.len() >= 1
                &&& after.last() == (level, title)
                &&& after.drop_last() == before.take(k)
                &&& forall|i: int| 0 <= i < k ==> (#[trigger] before[i]).0 < level
                &&& k < before.len() ==> before[k].0 >= level
            },
            None => chunk_fold(ls, max).stack == chunk_fold(ls.drop_last(), max).stack,
        },
    decreases ls.len(),
{
    if ls.len() == 0 {
        assert(stack_names(chunk_fold(ls, max).stack) =~= Seq::<Seq<char>>::empty());
    } else {
        let d = ls.drop_last();
        headings_nest(d, max);
        let before = chunk_fold(d, max).stack;
        match heading_of(trim_start(ls.last())) {
            Some((level, title)) => {
                lemma_pop_to(before, level);
                let popped = pop_to(before, level);
                let after = popped.push((level, title));
                assert(chunk_fold(ls, max).stack == after);
                assert(after.drop_last() =~= popped);
                assert forall|i: int, j: int| 0 <= i < j < after.len() implies (#[trigger] after[i]).0 < (
                #[trigger] after[j]).0 by {
                    assert(after[i] == before[i]);
                    if j < after.len() - 1 {
                        assert(after[j] == before[j]);
                    }
                }
            },
            None => {},
        }
    }
}

pub open spec fn chunk_views(cs: Seq<Chunk>) -> Seq<ChunkView> {
    Seq::new(cs.len(), |i: int| (cs[i].ordinal as nat, cs[i].heading_path@, cs[i].start_line as nat, cs[i].end_line as nat, cs[i].text@))
}

pub open spec fn pending_views(ls: Seq<(usize, String)>) -> Seq<(nat, Seq<char>)> {
    Seq::new(ls.len(), |i: int| (ls[i].0 as nat, ls[i].1@))
}

pub open spec fn hashed(cs: Seq<Chunk>) -> bool {
    forall|i: int| 0 <= i < cs.len() ==> (#[trigger] cs[i]).text_hash@ == text_hash(cs[i].text@)
}

fn flush_chunk(chunks: &mut Vec<Chunk>, lines: &mut Vec<(usize, String)>, heading: &String)
    requires
        hashed(old(chunks)@),
    ensures
        chunk_views(final(chunks)@) == flush(chunk_views(old(chunks)@), pending_views(old(lines)@), heading@),
        hashed(final(chunks)@),
        final(lines)@.len() == 0,
{
    let ghost pv = pending_views(lines@);
    let mut keep = lines.len();
    assert(pv.take(keep as int) =~= pv);
    while keep > 0 && crate::text::blank(chars_of(lines[keep - 1].1.as_str()).as_slice())
        invariant
            keep <= lines@.len(),
            pv == pending_views(lines@),
            pv.take(keep as int).len() == keep,
            trailing_blank(pv) == trailing_blank(pv.take(keep as int)) + (pv.len() - keep),
        decreases keep,
    {
        proof {
            let t = pv.take(keep as int);
            assert(t.drop_last() =~= pv.take(keep - 1));
            assert(t.last() == pv[keep - 1]);
        }
        keep = keep - 1;
    }
    proof {
        let t = pv.take(keep as int);
        if keep > 0 {
            assert(t.last() == pv[keep - 1]);
        }
        assert(trailing_blank(t) == 0);
        assert(pv.take(pv.len() - trailing_blank(pv)) =~= t);
    }
    if keep == 0 {
        lines.clear();
        return;
    }
    let mut text = String::new();
    let mut i: usize = 0;
    let ghost kept = pv.take(keep as int);
    assert(line_texts(kept).take(0) =~= Seq::<Seq<char>>::empty());
    while i < keep
        invariant
            i <= keep <= lines@.len(),
            pv == pending_views(lines@),
            kept == pv.take(keep as int),
            text@ == join(line_texts(kept).take(i as int), "\n"@),
        decreases keep - i,
    {
        if i > 0 {
            text.append("\n");
        }
        text.append(lines[i].1.as_str());
        proof {
            let t = line_texts(kept).take(i + 1);
            assert(t.drop_last() =~= line_texts(kept).take(i as int));
            assert(t.last() == lines@[i as int].1@);
            if i == 0 {
                assert(join(line_texts(kept).take(0), "\n"@) =~= Seq::<char>::empty());
                assert(text@ =~= join(t, "\n"@));
            }
        }
        i = i + 1;
    }
    assert(line_texts(kept).take(keep as int) =~= line_texts(kept));
    let ordinal = chunks.len();
    let hash = hash_text(text.as_str());
    let chunk = Chunk {
        ordinal,
        heading_path: String::from_str(heading.as_str()),
        start_line: lines[0].0,
        end_line: lines[keep - 1].0,
        text,
        text_hash: hash,
    };
    let ghost before = chunk_views(chunks@);
    chunks.push(chunk);
    lines.clear();
    proof {
        assert(chunk_views(chunks@) =~= before.push((before.len(), heading@, kept[0].0, kept.last().0, join(line_texts(kept), "\n"@))));
        assert forall|j: int| 0 <= j < chunks@.len() implies (#[trigger] chunks@[j]).text_hash@ == text_hash(chunks@[j].text@) by {
            if j < chunks@.len() - 1 {
                assert(chunks@[j] == old(chunks)@[j]);
            }
        }
    }
}


struct Chunker {
    chunks: Vec<Chunk>,
    stack: Vec<(usize, String)>,
    current: Vec<(usize, String)>,
    heading: String,
    chars: usize,
}

spec fn chunker_is(c: Chunker, st: ChunkState) -> bool {
    &&& chunk_views(c.chunks@) == st.chunks
    &&& hashed(c.chunks@)
    &&& pending_views(c.stack@) == st.stack
    &&& pending_views(c.current@) == st.current
    &&& c.heading@ == st.heading
    &&& c.chars == st.chars
}

fn pop_stack(stack: &mut Vec<(usize, String)>, level: usize)
    ensures
        pending_views(final(stack)@) == pop_to(pending_views(old(stack)@), level as nat),
{
    while stack.len() > 0 && stack[stack.len() - 1].0 >= level
        invariant
            pop_to(pending_views(stack@), level as nat) == pop_to(pending_views(old(stack)@), level as nat),
        decreases stack@.len(),
    {
        let ghost before = pending_views(stack@);
        stack.pop();
        proof {
            assert(pending_views(stack@) =~= before.drop_last());
        }
    }
    proof {
        let pv = pending_views(stack@);
        if pv.len() > 0 {
            assert(pv.last().0 == stack@[stack@.len() - 1].0);
        }
    }
}

fn join_stack(stack: &Vec<(usize, String)>) -> (r: String)
    ensures
        r@ == join(stack_names(pending_views(stack@)), " > "@),
{
    let mut r = String::new();
    let ghost names = stack_names(pending_views(stack@));
    let mut i: usize = 0;
    assert(names.take(0) =~= Seq::<Seq<char>>::empty());
    while i < stack.len()
        invariant
            i <= stack@.len(),
            names == stack_names(pending_views(stack@)),
            r@ == join(names.take(i as int), " > "@),
        decreases stack@.len() - i,
    {
        if i > 0 {
            r.append(" > ");
        }
        r.append(stack[i].1.as_str());
        proof {
            let t = names.take(i + 1);
            assert(t.drop_last() =~= names.take(i as int));
            assert(t.last() == stack@[i as int].1@);
            if i == 0 {
                assert(join(names.take(0), " > "@) =~= Seq::<char>::empty());
                assert(r@ =~= join(t, " > "@));
            }
        }
        i = i + 1;
    }
    assert(names.take(names.len() as int) =~= names);
    r
}

fn chunk_line(c: &mut Chunker, n: usize, raw: &String, max: usize, Ghost(st): Ghost<ChunkState>)
    requires
        chunker_is(*old(c), st),
        raw@.len() <= usize::MAX / 4,
        max <= usize::MAX / 4,
        st.chars <= usize::MAX / 4 + 1,
    ensures
        chunker_is(*final(c), chunk_step(st, n as nat, raw@, max as nat)),
        chunk_step(st, n as nat, raw@, max as nat).chars <= usize::MAX / 4 + 1,
{
    match parse_heading(raw.as_str()) {
        Some((level, title)) => {
            flush_chunk(&mut c.chunks, &mut c.current, &c.heading);
            c.chars = 0;
            pop_stack(&mut c.stack, level);
            let ghost popped = pending_views(c.stack@);
            c.stack.push((level, title));
            proof {
                assert(pending_views(c.stack@) =~= popped.push((level as nat, c.stack@[c.stack@.len() - 1].1@)));
            }
            c.heading = join_stack(&c.stack);
            assert(pending_views(c.current@) =~= Seq::<(nat, Seq<char>)>::empty());
        },
        None => {},
    }
    let line_chars = raw.unicode_len() + 1;
    if c.chars > 0 && c.chars + line_chars > max {
        flush_chunk(&mut c.chunks, &mut c.current, &c.heading);
        c.chars = 0;
        assert(pending_views(c.current@) =~= Seq::<(nat, Seq<char>)>::empty());
    }
    let ghost before = pending_views(c.current@);
    c.current.push((n, String::from_str(raw.as_str())));
    proof {
        assert(pending_views(c.current@) =~= before.push((n as nat, raw@)));
    }
    c.chars = c.chars + line_chars;
    let blank_line = crate::text::blank(chars_of(raw.as_str()).as_slice());
    if blank_line && c.current.len() > 1 && c.chars >= max / 2 {
        flush_chunk(&mut c.chunks, &mut c.current, &c.heading);
        c.chars = 0;
        assert(pending_views(c.current@) =~= Seq::<(nat, Seq<char>)>::empty());
    }
}

/// Splits a page into heading-scoped chunks of about `max_chars`
/// characters, each with its line range and the SHA-256 of its text.
pub fn chunk_markdown(text: &str, max_chars: usize) -> (r: Vec<Chunk>)
    requires
        text@.len() <= usize::MAX / 4,
        max_chars <= usize::MAX / 4,
    ensures
        chunk_views(r@) == chunks_of(text@, max_chars as nat),
        hashed(r@),
{
    let tv = chars_of(text);
    let ls = split_lines(tv.as_slice());
    let ghost all = views(ls@);
    let mut c = Chunker { chunks: Vec::new(), stack: Vec::new(), current: Vec::new(), heading: String::new(), chars: 0 };
    proof {
        assert(all.take(0) =~= Seq::<Seq<char>>::empty());
        assert(chunk_views(c.chunks@) =~= Seq::<ChunkView>::empty());
        assert(pending_views(c.stack@) =~= Seq::<(nat, Seq<char>)>::empty());
        assert(pending_views(c.current@) =~= Seq::<(nat, Seq<char>)>::empty());
        assert(c.heading@ =~= Seq::<char>::empty());
    }
    let mut i: usize = 0;
    while i < ls.len()
        invariant
            i <= ls@.len(),
            all == views(ls@),
            all == lines(text@),
            text@.len() <= usize::MAX / 4,
            max_chars <= usize::MAX / 4,
            chunker_is(c, chunk_fold(all.take(i as int), max_chars as nat)),
            chunk_fold(all.take(i as int), max_chars as nat).chars <= usize::MAX / 4 + 1,
        decreases ls@.len() - i,
    {
        let raw = string_of(ls[i].as_slice());
        proof {
            assert(all.take(i + 1).drop_last() =~= all.take(i as int));
            assert(all.take(i + 1).last() == raw@);
            lemma_line_len(text@, i as int);
        }
        chunk_line(&mut c, i + 1, &raw, max_chars, Ghost(chunk_fold(all.take(i as int), max_chars as nat)));
        i = i + 1;
    }
    assert(all.take(all.len() as int) =~= all);
    flush_chunk(&mut c.chunks, &mut c.current, &c.heading);
    c.chunks
}

/// Every line is no longer than the text.
proof fn lemma_line_len(text: Seq<char>, i: int)
    requires
        0 <= i < lines(text).len(),
    ensures
        lines(text)[i].len() <= text.len(),
    decreases text.len(),
{
    if text.len() > 0 {
        let k = crate::text::newline_at(text);
        crate::text::lemma_newline_at_bound(text);
        if k < text.len() {
            if i > 0 {
                lemma_line_len(text.skip(k + 1 as int), i - 1);
            }
        }
    }
}

} // verus!
