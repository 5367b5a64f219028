//! Reading the fields and identifiers an Agent writes into SDD Markdown.
//!
//! Field lines look like `- Priority: must` or `| Status：done |`; identifiers
//! are tokens such as `REQ-001`, `AC-2` or `TASK-9` made of ASCII letters,
//! digits, `-` and `_`.

use vstd::prelude::*;
use crate::text::{
    ascii_lower_seq, ascii_lowercase, chars_equal, chars_of, insert_sorted, is_ascii_alnum,
    lex_lt, lines, slice_chars, contains_seq, eq_ignore_case, eq_ignore_case_str, has_prefix, split_by, split_chars, split_lines, starts_with, strictly_sorted,
    string_of, strings_of, str_views, trim, trim_chars, trim_start, views, Sep,
};

verus! {

// ---------------------------------------------------------------------------
// Fields
// ---------------------------------------------------------------------------
/// Number of leading `-` characters.
pub open spec fn dash_prefix_len(s: Seq<char>) -> nat
    decreases s.len(),
{
    if s.len() > 0 && s[0] == '-' {
        1 + dash_prefix_len(s.drop_first())
    } else {
        0
    }
}

/// A field segment cleaned for reading: trimmed, leading list dashes
/// removed, trimmed again.
pub open spec fn clean_segment(s: Seq<char>) -> Seq<char> {
    let t = trim(s);
    trim(t.skip(dash_prefix_len(t) as int))
}

/// Index of the first `c`, or the length.
pub open spec fn char_at(s: Seq<char>, c: char) -> nat
    decreases s.len(),
{
    if s.len() == 0 || s[0] == c {
        0
    } else {
        1 + char_at(s.drop_first(), c)
    }
}

/// The key and value of a segment split at its first `:`, or failing that
/// at its first full-width `：`.
pub open spec fn key_value(s: Seq<char>) -> Option<(Seq<char>, Seq<char>)> {
    let k = char_at(s, ':');
    let w = char_at(s, '：');
    if k < s.len() {
        Some((s.take(k as int), s.skip(k + 1 as int)))
    } else if w < s.len() {
        Some((s.take(w as int), s.skip(w + 1 as int)))
    } else {
        None
    }
}

/// Field names compare trimmed and ASCII-case-insensitively.
pub open spec fn key_matches(key: Seq<char>, field: Seq<char>) -> bool {
    ascii_lower_seq(trim(key)) == ascii_lower_seq(field)
}

/// The trimmed value of the first segment whose key is `field`.
pub open spec fn field_in(segs: Seq<Seq<char>>, field: Seq<char>) -> Option<Seq<char>>
    decreases segs.len(),
{
    if segs.len() == 0 {
        None
    } else {
        match key_value(clean_segment(segs[0])) {
            Some((k, v)) => if key_matches(k, field) {
                Some(trim(v))
            } else {
                field_in(segs.drop_first(), field)
            },
            None => field_in(segs.drop_first(), field),
        }
    }
}

/// The segments of every line, cut at `|` and `｜`, in reading order.
pub open spec fn all_segments(ls: Seq<Seq<char>>) -> Seq<Seq<char>>
    decreases ls.len(),
{
    if ls.len() == 0 {
        seq![]
    } else {
        split_by(ls[0], Sep::Bar) + all_segments(ls.drop_first())
    }
}

/// The value of the field `field` in a Markdown document: the first line
/// segment of the form `key: value` (or `key：value`), optionally behind
/// list dashes, whose key matches.
pub open spec fn field_value_of(text: Seq<char>, field: Seq<char>) -> Option<Seq<char>> {
    field_in(all_segments(lines(text)), field)
}

proof fn lemma_field_in_concat(a: Seq<Seq<char>>, b: Seq<Seq<char>>, field: Seq<char>)
    ensures
        field_in(a + b, field) == match field_in(a, field) {
            Some(v) => Some(v),
            None => field_in(b, field),
        },
    decreases a.len(),
{
    if a.len() > 0 {
        assert((a + b).drop_first() =~= a.drop_first() + b);
        assert((a + b)[0] == a[0]);
        lemma_field_in_concat(a.drop_first(), b, field);
    } else {
        assert(a + b =~= b);
    }
}

proof fn lemma_dash_prefix_len(s: Seq<char>, k: int)
    requires
        0 <= k <= s.len(),
        forall|j: int| 0 <= j < k ==> #[trigger] s[j] == '-',
        k == s.len() || s[k] != '-',
    ensures
        dash_prefix_len(s) == k,
    decreases k,
{
    if k > 0 {
        lemma_dash_prefix_len(s.drop_first(), k - 1);
    }
}

proof fn lemma_char_at(s: Seq<char>, c: char, k: int)
    requires
        0 <= k <= s.len(),
        forall|j: int| 0 <= j < k ==> #[trigger] s[j] != c,
        k == s.len() || s[k] == c,
    ensures
        char_at(s, c) == k,
    decreases k,
{
    if k > 0 {
        lemma_char_at(s.drop_first(), c, k - 1);
    }
}

/// Position of the first `c` in `v`, or the length.
pub fn find_char(v: &[char], c: char) -> (k: usize)
    ensures
        k == char_at(v@, c),
        k <= v@.len(),
{
    let mut k: usize = 0;
    while k < v.len() && v[k] != c
        invariant
            k <= v@.len(),
            forall|j: int| 0 <= j < k ==> v@[j] != c,
        decreases v@.len() - k,
    {
        k = k + 1;
    }
    proof {
        lemma_char_at(v@, c, k as int);
    }
    k
}

fn clean(v: &[char]) -> (r: Vec<char>)
    ensures
        r@ == clean_segment(v@),
{
    let t = trim_chars(v);
    let mut k: usize = 0;
    while k < t.len() && t[k] == '-'
        invariant
            k <= t@.len(),
            forall|j: int| 0 <= j < k ==> t@[j] == '-',
        decreases t@.len() - k,
    {
        k = k + 1;
    }
    proof {
        lemma_dash_prefix_len(t@, k as int);
    }
    let rest = slice_chars(t.as_slice(), k, t.len());
    assert(rest@ =~= t@.skip(k as int));
    trim_chars(rest.as_slice())
}

fn split_pair(s: &[char]) -> (r: Option<(Vec<char>, Vec<char>)>)
    ensures
        match key_value(s@) {
            Some((k, v)) => r matches Some((a, b)) && a@ == k && b@ == v,
            None => r is None,
        },
{
    let k = find_char(s, ':');
    if k < s.len() {
        return Some((slice_chars(s, 0, k), slice_chars(s, k + 1, s.len())));
    }
    let w = find_char(s, '：');
    if w < s.len() {
        return Some((slice_chars(s, 0, w), slice_chars(s, w + 1, s.len())));
    }
    None
}

/// The value in the segment when its key is `field` (given lower-cased).
fn segment_value(seg: &[char], field_lower: &[char]) -> (r: Option<Vec<char>>)
    ensures
        match key_value(clean_segment(seg@)) {
            Some((k, v)) => if ascii_lower_seq(trim(k)) == field_lower@ {
                r matches Some(x) && x@ == trim(v)
            } else {
                r is None
            },
            None => r is None,
        },
{
    let c = clean(seg);
    match split_pair(c.as_slice()) {
        Some((key, value)) => {
            let k = ascii_lowercase(trim_chars(key.as_slice()).as_slice());
            if chars_equal(k.as_slice(), field_lower) {
                Some(trim_chars(value.as_slice()))
            } else {
                None
            }
        },
        None => None,
    }
}

/// Returns the value of a `Field: value` line (also `Field：value` and
/// `| Field: value |` table cells), matching the field name case-insensitively.
pub fn field_value(text: &str, field: &str) -> (r: Option<String>)
    ensures
        match field_value_of(text@, field@) {
            Some(v) => r matches Some(x) && x@ == v,
            None => r is None,
        },
{
    let fv = chars_of(field);
    let field_lower = ascii_lowercase(fv.as_slice());
    let tv = chars_of(text);
    let ls = split_lines(tv.as_slice());
    let ghost all = views(ls@);
    let mut i: usize = 0;
    assert(all.skip(0) =~= all);
    while i < ls.len()
        invariant
            i <= ls@.len(),
            all == views(ls@),
            all == lines(text@),
            field_lower@ == ascii_lower_seq(field@),
            field_value_of(text@, field@) == field_in(all_segments(all.skip(i as int)), field@),
        decreases ls@.len() - i,
    {
        let segs = split_chars(ls[i].as_slice(), Sep::Bar);
        let ghost sv = views(segs@);
        let mut j: usize = 0;
        assert(sv.skip(0) =~= sv);
        proof {
            assert(all.skip(i as int)[0] == ls@[i as int]@);
            assert(all.skip(i as int).drop_first() =~= all.skip(i + 1));
        }
        while j < segs.len()
            invariant
                j <= segs@.len(),
                sv == views(segs@),
                sv == split_by(all[i as int], Sep::Bar),
                i < ls@.len(),
                all == views(ls@),
                field_lower@ == ascii_lower_seq(field@),
                field_in(sv, field@) == field_in(sv.skip(j as int), field@),
                field_value_of(text@, field@) == field_in(all_segments(all.skip(i as int)), field@),
                all.skip(i as int)[0] == all[i as int],
                all.skip(i as int).drop_first() == all.skip(i + 1),
                all.skip(i as int).len() > 0,
            decreases segs@.len() - j,
        {
            let found = segment_value(segs[j].as_slice(), field_lower.as_slice());
            proof {
                assert(sv.skip(j as int)[0] == segs@[j as int]@);
                assert(sv.skip(j as int).drop_first() =~= sv.skip(j + 1));
            }
            match found {
                Some(v) => {
                    proof {
                        assert(all.skip(i as int)[0] == all[i as int]);
                        assert(all_segments(all.skip(i as int)) == sv + all_segments(
                            all.skip(i + 1),
                        ));
                        lemma_field_in_concat(sv, all_segments(all.skip(i + 1)), field@);
                    }
                    return Some(string_of(v.as_slice()));
                },
                None => {},
            }
            j = j + 1;
        }
        proof {
            assert(sv.skip(j as int).len() == 0);
            lemma_field_in_concat(sv, all_segments(all.skip(i + 1)), field@);
        }
        i = i + 1;
    }
    None
}


// ---------------------------------------------------------------------------
// Identifiers
// ---------------------------------------------------------------------------
/// `t` is `prefix` followed by at least one more character.
pub open spec fn is_prefixed(t: Seq<char>, prefix: Seq<char>) -> bool {
    t.len() > prefix.len() && t.take(prefix.len() as int) == prefix
}

/// The tokens of `ts` carrying `prefix`, as a set.
pub open spec fn prefixed_tokens(ts: Seq<Seq<char>>, prefix: Seq<char>) -> Set<Seq<char>>
    decreases ts.len(),
{
    if ts.len() == 0 {
        Set::empty()
    } else {
        let s = prefixed_tokens(ts.drop_last(), prefix);
        if is_prefixed(ts.last(), prefix) {
            s.insert(ts.last())
        } else {
            s
        }
    }
}

/// The identifiers with `prefix` in `text`: its maximal runs of ASCII
/// letters, digits, `-` and `_` that start with `prefix` and go on after it.
pub open spec fn ids_in(text: Seq<char>, prefix: Seq<char>) -> Set<Seq<char>> {
    prefixed_tokens(split_by(text, Sep::NonId), prefix)
}

/// A sorted list without repetitions holding exactly the set `s`.
pub open spec fn lists_set(v: Seq<Seq<char>>, s: Set<Seq<char>>) -> bool {
    strictly_sorted(v) && v.to_set() == s
}

/// Adds every `prefix`-identifier of `text` to the sorted set `out`.
fn add_ids(out: &mut Vec<Vec<char>>, text: &[char], prefix: &str)
    requires
        strictly_sorted(views(old(out)@)),
    ensures
        lists_set(views(final(out)@), views(old(out)@).to_set().union(ids_in(text@, prefix@))),
{
    let p = chars_of(prefix);
    let tokens = split_chars(text, Sep::NonId);
    let ghost tv = views(tokens@);
    let ghost start = views(out@).to_set();
    let mut i: usize = 0;
    assert(start.union(prefixed_tokens(tv.take(0), prefix@)) =~= start);
    while i < tokens.len()
        invariant
            i <= tokens@.len(),
            tv == views(tokens@),
            tv == split_by(text@, Sep::NonId),
            p@ == prefix@,
            strictly_sorted(views(out@)),
            views(out@).to_set() == start.union(prefixed_tokens(tv.take(i as int), prefix@)),
        decreases tokens@.len() - i,
    {
        let t = &tokens[i];
        proof {
            assert(tv.take(i + 1).drop_last() =~= tv.take(i as int));
            assert(tv.take(i + 1).last() == t@);
        }
        if t.len() > p.len() && starts_with(t.as_slice(), p.as_slice()) {
            let ghost before = views(out@).to_set();
            insert_sorted(out, t.clone());
            proof {
                assert(views(out@).to_set() =~= start.union(prefixed_tokens(tv.take(i + 1), prefix@)));
            }
        } else {
            proof {
                assert(!is_prefixed(t@, prefix@));
            }
        }
        i = i + 1;
    }
    assert(tv.take(tokens@.len() as int) =~= tv);
}

proof fn lemma_prefixed_tokens_long(ts: Seq<Seq<char>>, prefix: Seq<char>, x: Seq<char>)
    requires
        prefixed_tokens(ts, prefix).contains(x),
    ensures
        x.len() > prefix.len(),
    decreases ts.len(),
{
    if ts.len() > 0 {
        if x != ts.last() || !is_prefixed(ts.last(), prefix) {
            lemma_prefixed_tokens_long(ts.drop_last(), prefix, x);
        }
    }
}

/// Identifiers with `prefix` in `text`, sorted and without repetitions.
pub fn extract_ids(text: &str, prefix: &str) -> (r: Vec<String>)
    ensures
        lists_set(str_views(r@), ids_in(text@, prefix@)),
{
    let v = chars_of(text);
    let mut out: Vec<Vec<char>> = Vec::new();
    assert(views(out@).to_set() =~= Set::<Seq<char>>::empty());
    add_ids(&mut out, v.as_slice(), prefix);
    assert(Set::<Seq<char>>::empty().union(ids_in(text@, prefix@)) =~= ids_in(text@, prefix@));
    strings_of(&out)
}

/// `value` is `prefix` followed by one or more identifier characters.
pub open spec fn prefixed_id(value: Seq<char>, prefix: Seq<char>) -> bool {
    &&& value.len() > prefix.len()
    &&& value.take(prefix.len() as int) == prefix
    &&& forall|j: int| prefix.len() <= j < value.len() ==> crate::text::is_id_char(#[trigger] value[j])
}

/// Whether `value` is an identifier with `prefix`, such as `TASK-001`.
pub fn is_prefixed_id(value: &str, prefix: &str) -> (r: bool)
    ensures
        r == prefixed_id(value@, prefix@),
{
    let v = chars_of(value);
    let p = chars_of(prefix);
    if !(v.len() > p.len() && starts_with(v.as_slice(), p.as_slice())) {
        return false;
    }
    let mut j = p.len();
    while j < v.len()
        invariant
            p@.len() <= j <= v@.len(),
            v@ == value@,
            p@ == prefix@,
            v@.len() > p@.len(),
            v@.take(p@.len() as int) == p@,
            forall|k: int| p@.len() <= k < j ==> crate::text::is_id_char(#[trigger] v@[k]),
        decreases v@.len() - j,
    {
        let c = v[j];
        if !((c >= 'a' && c <= 'z') || (c >= 'A' && c <= 'Z') || (c >= '0' && c <= '9') || c == '-'
            || c == '_') {
            assert(!crate::text::is_id_char(v@[j as int]));
            return false;
        }
        j = j + 1;
    }
    true
}

/// A Markdown heading line: `#` after leading whitespace.
pub open spec fn is_heading(line: Seq<char>) -> bool {
    let t = trim_start(line);
    t.len() > 0 && t[0] == '#'
}

fn heading_line(line: &[char]) -> (r: bool)
    ensures
        r == is_heading(line@),
{
    let (a, _) = crate::text::trim_bounds(line);
    a < line.len() && line[a] == '#'
}

/// The least element of a set of identifiers in string order.
pub open spec fn least(s: Set<Seq<char>>) -> Seq<char> {
    choose|x: Seq<char>| s.contains(x) && forall|y: Seq<char>| #[trigger] s.contains(y) ==> x == y || lex_lt(x, y)
}

/// The first identifier with `prefix` of the first heading line that has
/// one: the least such identifier of that line.
pub open spec fn first_id_in(ls: Seq<Seq<char>>, prefix: Seq<char>) -> Option<Seq<char>>
    decreases ls.len(),
{
    if ls.len() == 0 {
        None
    } else if is_heading(ls[0]) && !ids_in(ls[0], prefix).is_empty() {
        Some(least(ids_in(ls[0], prefix)))
    } else {
        first_id_in(ls.drop_first(), prefix)
    }
}

/// The first element of a sorted set list is its least element.
proof fn lemma_first_is_least(v: Seq<Seq<char>>)
    requires
        strictly_sorted(v),
        v.len() > 0,
    ensures
        least(v.to_set()) == v[0],
{
    let s = v.to_set();
    assert(s.contains(v[0]));
    assert forall|y: Seq<char>| #[trigger] s.contains(y) implies v[0] == y || lex_lt(v[0], y) by {
        let j = choose|j: int| 0 <= j < v.len() && v[j] == y;
        if j > 0 {
            assert(lex_lt(v[0], v[j]));
        }
    }
    let x = least(s);
    assert(s.contains(x) && forall|y: Seq<char>| #[trigger] s.contains(y) ==> x == y || lex_lt(x, y));
    if x != v[0] {
        assert(lex_lt(x, v[0]));
        assert(lex_lt(v[0], x));
        crate::text::lemma_lex_asymmetric(x, v[0]);
    }
}

/// The first `prefix` identifier named in a heading of `text`.
pub fn first_id(text: &str, prefix: &str) -> (r: Option<String>)
    ensures
        match first_id_in(lines(text@), prefix@) {
            Some(x) => r matches Some(s) && s@ == x,
            None => r is None,
        },
        r matches Some(s) ==> s@.len() > prefix@.len(),
{
    let tv = chars_of(text);
    let ls = split_lines(tv.as_slice());
    let ghost all = views(ls@);
    let mut i: usize = 0;
    assert(all.skip(0) =~= all);
    while i < ls.len()
        invariant
            i <= ls@.len(),
            all == views(ls@),
            all == lines(text@),
            first_id_in(all, prefix@) == first_id_in(all.skip(i as int), prefix@),
        decreases ls@.len() - i,
    {
        proof {
            assert(all.skip(i as int)[0] == ls@[i as int]@);
            assert(all.skip(i as int).drop_first() =~= all.skip(i + 1));
        }
        if heading_line(ls[i].as_slice()) {
            let mut ids: Vec<Vec<char>> = Vec::new();
            assert(views(ids@).to_set() =~= Set::<Seq<char>>::empty());
            add_ids(&mut ids, ls[i].as_slice(), prefix);
            proof {
                assert(Set::<Seq<char>>::empty().union(ids_in(ls@[i as int]@, prefix@)) =~= ids_in(
                    ls@[i as int]@,
                    prefix@,
                ));
            }
            if ids.len() > 0 {
                proof {
                    assert(views(ids@).to_set().contains(views(ids@)[0]));
                    lemma_first_is_least(views(ids@));
                    lemma_prefixed_tokens_long(split_by(ls@[i as int]@, Sep::NonId), prefix@, views(ids@)[0]);
                }
                return Some(string_of(ids[0].as_slice()));
            }
            proof {
                assert(views(ids@).to_set() =~= Set::<Seq<char>>::empty());
            }
        }
        i = i + 1;
    }
    None
}

/// Union of the identifiers of every prefix in `prefixes`.
pub open spec fn ids_any(text: Seq<char>, prefixes: Seq<&str>) -> Set<Seq<char>>
    decreases prefixes.len(),
{
    if prefixes.len() == 0 {
        Set::empty()
    } else {
        ids_any(text, prefixes.drop_last()).union(ids_in(text, prefixes.last()@))
    }
}

/// Adds the identifiers of every prefix.
fn add_ids_any(out: &mut Vec<Vec<char>>, text: &[char], prefixes: &[&str])
    requires
        strictly_sorted(views(old(out)@)),
    ensures
        lists_set(views(final(out)@), views(old(out)@).to_set().union(ids_any(text@, prefixes@))),
{
    let ghost start = views(out@).to_set();
    let mut k: usize = 0;
    assert(start.union(ids_any(text@, prefixes@.take(0))) =~= start);
    while k < prefixes.len()
        invariant
            k <= prefixes@.len(),
            strictly_sorted(views(out@)),
            views(out@).to_set() == start.union(ids_any(text@, prefixes@.take(k as int))),
        decreases prefixes@.len() - k,
    {
        add_ids(out, text, prefixes[k]);
        proof {
            assert(prefixes@.take(k + 1).drop_last() =~= prefixes@.take(k as int));
            assert(views(out@).to_set() =~= start.union(ids_any(text@, prefixes@.take(k + 1))));
        }
        k = k + 1;
    }
    assert(prefixes@.take(prefixes@.len() as int) =~= prefixes@);
}

/// Identifiers of the given prefixes named in heading lines.
pub open spec fn heading_ids_in(ls: Seq<Seq<char>>, prefixes: Seq<&str>) -> Set<Seq<char>>
    decreases ls.len(),
{
    if ls.len() == 0 {
        Set::empty()
    } else {
        let s = heading_ids_in(ls.drop_last(), prefixes);
        if is_heading(ls.last()) {
            s.union(ids_any(ls.last(), prefixes))
        } else {
            s
        }
    }
}

/// Identifiers with any of `prefixes` named in the headings of `text`,
/// sorted and without repetitions.
pub fn heading_ids(text: &str, prefixes: &[&str]) -> (r: Vec<String>)
    ensures
        lists_set(str_views(r@), heading_ids_in(lines(text@), prefixes@)),
{
    let tv = chars_of(text);
    let ls = split_lines(tv.as_slice());
    let ghost all = views(ls@);
    let mut out: Vec<Vec<char>> = Vec::new();
    let mut i: usize = 0;
    assert(views(out@).to_set() =~= heading_ids_in(all.take(0), prefixes@));
    while i < ls.len()
        invariant
            i <= ls@.len(),
            all == views(ls@),
            all == lines(text@),
            strictly_sorted(views(out@)),
            views(out@).to_set() == heading_ids_in(all.take(i as int), prefixes@),
        decreases ls@.len() - i,
    {
        proof {
            assert(all.take(i + 1).drop_last() =~= all.take(i as int));
            assert(all.take(i + 1).last() == ls@[i as int]@);
        }
        if heading_line(ls[i].as_slice()) {
            add_ids_any(&mut out, ls[i].as_slice(), prefixes);
        }
        i = i + 1;
    }
    assert(all.take(ls@.len() as int) =~= all);
    strings_of(&out)
}

/// Identifiers with `prefix` in the value of the field `field`.
pub open spec fn field_ids_of(text: Seq<char>, field: Seq<char>, prefix: Seq<char>) -> Set<Seq<char>> {
    match field_value_of(text, field) {
        Some(v) => ids_in(v, prefix),
        None => Set::empty(),
    }
}

/// Identifiers with `prefix` listed in the field `field`.
pub fn field_ids(text: &str, field: &str, prefix: &str) -> (r: Vec<String>)
    ensures
        lists_set(str_views(r@), field_ids_of(text@, field@, prefix@)),
{
    match field_value(text, field) {
        Some(v) => extract_ids(v.as_str(), prefix),
        None => {
            let r: Vec<String> = Vec::new();
            assert(str_views(r@).to_set() =~= Set::<Seq<char>>::empty());
            r
        },
    }
}

/// Identifiers with any of `prefixes` in the value of the field `field`.
pub open spec fn field_ids_any_of(text: Seq<char>, field: Seq<char>, prefixes: Seq<&str>) -> Set<
    Seq<char>,
> {
    match field_value_of(text, field) {
        Some(v) => ids_any(v, prefixes),
        None => ids_any(seq![], prefixes),
    }
}

/// Identifiers with any of `prefixes` listed in the field `field`, sorted
/// and without repetitions.
pub fn field_ids_any(text: &str, field: &str, prefixes: &[&str]) -> (r: Vec<String>)
    ensures
        lists_set(str_views(r@), field_ids_any_of(text@, field@, prefixes@)),
{
    let value = match field_value(text, field) {
        Some(v) => chars_of(v.as_str()),
        None => Vec::new(),
    };
    let mut out: Vec<Vec<char>> = Vec::new();
    assert(views(out@).to_set() =~= Set::<Seq<char>>::empty());
    add_ids_any(&mut out, value.as_slice(), prefixes);
    proof {
        assert(Set::<Seq<char>>::empty().union(ids_any(value@, prefixes@)) =~= ids_any(value@, prefixes@));
        if field_value_of(text@, field@) is None {
            assert(value@ =~= Seq::<char>::empty());
        }
    }
    strings_of(&out)
}


// ---------------------------------------------------------------------------
// Requirement, task and coverage documents
// ---------------------------------------------------------------------------
/// A requirement as read from `spec/requirements/REQ-*.md`.
pub struct RequirementDoc {
    pub id: String,
    pub priority: String,
    pub status: String,
    pub acceptance_ids: Vec<String>,
    pub dependencies: Vec<String>,
}

/// A task as read from `tasks/TASK-*.md`.
pub struct TaskDoc {
    pub id: String,
    pub priority: String,
    pub status: String,
    pub task_type: String,
    pub requirement_refs: Vec<String>,
    pub acceptance_refs: Vec<String>,
    pub dependencies: Vec<String>,
    pub blocked_reason: Option<String>,
    pub unblock_condition: Option<String>,
    pub dropped_reason: Option<String>,
    pub has_definition: bool,
}

/// One row of the coverage matrix in `tasks/index.md`.
pub struct CoverageRow {
    pub requirement: String,
    pub acceptance: String,
    pub task: String,
}

/// A field's value, or `default` when the field is absent.
pub open spec fn field_or(text: Seq<char>, field: Seq<char>, default: Seq<char>) -> Seq<char> {
    match field_value_of(text, field) {
        Some(v) => v,
        None => default,
    }
}

fn field_or_default(text: &str, field: &str, default: &str) -> (r: String)
    ensures
        r@ == field_or(text@, field@, default@),
{
    match field_value(text, field) {
        Some(v) => v,
        None => String::from_str(default),
    }
}

/// The acceptance-criterion prefixes.
pub open spec fn acceptance_prefixes(p: Seq<&str>) -> bool {
    p.len() == 2 && p[0]@ == "AC-"@ && p[1]@ == "ACC-"@
}

/// The fields of a requirement document: its `REQ-*` identifier (from the
/// headings, else the file stem, else empty), priority (default `must`),
/// status (default `proposed`), acceptance criteria named in headings and
/// the requirements it depends on.
pub open spec fn is_requirement_of(r: RequirementDoc, stem: Option<Seq<char>>, text: Seq<char>) -> bool {
    &&& r.id@ == match first_id_in(lines(text), "REQ-"@) {
        Some(id) => id,
        None => match stem {
            Some(s) => s,
            None => seq![],
        },
    }
    &&& r.priority@ == field_or(text, "priority"@, "must"@)
    &&& r.status@ == field_or(text, "status"@, "proposed"@)
    &&& exists|p: Seq<&str>|
        acceptance_prefixes(p) && lists_set(
            str_views(r.acceptance_ids@),
            heading_ids_in(lines(text), p),
        )
    &&& lists_set(str_views(r.dependencies@), field_ids_of(text, "dependencies"@, "REQ-"@))
}

/// Reads a requirement document whose file stem is `stem`.
pub fn parse_requirement(stem: Option<&str>, text: &str) -> (r: RequirementDoc)
    ensures
        is_requirement_of(
            r,
            match stem {
                Some(s) => Some(s@),
                None => None,
            },
            text@,
        ),
        first_id_in(lines(text@), "REQ-"@) is Some ==> r.id@.len() > 0,
{
    let id = match first_id(text, "REQ-") {
        Some(id) => id,
        None => match stem {
            Some(s) => String::from_str(s),
            None => String::new(),
        },
    };
    let priority = field_or_default(text, "priority", "must");
    let status = field_or_default(text, "status", "proposed");
    let prefixes = ["AC-", "ACC-"];
    let acceptance_ids = heading_ids(text, prefixes.as_slice());
    let dependencies = field_ids(text, "dependencies", "REQ-");
    proof {
        assert(acceptance_prefixes(prefixes@));
    }
    RequirementDoc { id, priority, status, acceptance_ids, dependencies }
}

/// A task's completion-definition heading, in English or Chinese.
pub open spec fn defines_completion(line: Seq<char>) -> bool {
    contains_seq(ascii_lower_seq(line), "## completion definition"@) || contains_seq(
        line,
        "## 完成定义"@,
    )
}

pub open spec fn any_defines_completion(ls: Seq<Seq<char>>) -> bool {
    exists|i: int| 0 <= i < ls.len() && defines_completion(#[trigger] ls[i])
}

/// The fields of a task document.
pub open spec fn is_task_of(t: TaskDoc, text: Seq<char>) -> bool {
    &&& t.id@ == match first_id_in(lines(text), "TASK-"@) {
        Some(id) => id,
        None => seq![],
    }
    &&& t.priority@ == field_or(text, "priority"@, "must"@)
    &&& t.status@ == field_or(text, "status"@, "todo"@)
    &&& t.task_type@ == field_or(text, "type"@, "code"@)
    &&& lists_set(str_views(t.requirement_refs@), field_ids_of(text, "requirement refs"@, "REQ-"@))
    &&& exists|p: Seq<&str>|
        acceptance_prefixes(p) && lists_set(
            str_views(t.acceptance_refs@),
            field_ids_any_of(text, "acceptance refs"@, p),
        )
    &&& lists_set(str_views(t.dependencies@), field_ids_of(text, "depends on"@, "TASK-"@))
    &&& opt_str(t.blocked_reason) == field_value_of(text, "blocked reason"@)
    &&& opt_str(t.unblock_condition) == field_value_of(text, "unblock condition"@)
    &&& opt_str(t.dropped_reason) == field_value_of(text, "dropped reason"@)
    &&& t.has_definition == any_defines_completion(lines(text))
}

pub open spec fn opt_str(o: Option<String>) -> Option<Seq<char>> {
    match o {
        Some(s) => Some(s@),
        None => None,
    }
}

fn opt_field(text: &str, field: &str) -> (r: Option<String>)
    ensures
        opt_str(r) == field_value_of(text@, field@),
{
    field_value(text, field)
}

fn has_completion_definition(text: &str) -> (r: bool)
    ensures
        r == any_defines_completion(lines(text@)),
{
    let tv = chars_of(text);
    let ls = split_lines(tv.as_slice());
    let mut i: usize = 0;
    while i < ls.len()
        invariant
            i <= ls@.len(),
            views(ls@) == lines(text@),
            forall|j: int| 0 <= j < i ==> !defines_completion(#[trigger] views(ls@)[j]),
        decreases ls@.len() - i,
    {
        let lower = ascii_lowercase(ls[i].as_slice());
        if crate::text::contains_str(lower.as_slice(), "## completion definition")
            || crate::text::contains_str(ls[i].as_slice(), "## 完成定义") {
            assert(defines_completion(views(ls@)[i as int]));
            return true;
        }
        i = i + 1;
    }
    false
}

/// Reads a task document.
pub fn parse_task(text: &str) -> (r: TaskDoc)
    ensures
        is_task_of(r, text@),
        first_id_in(lines(text@), "TASK-"@) is Some ==> r.id@.len() > 0,
{
    let id = match first_id(text, "TASK-") {
        Some(id) => id,
        None => String::new(),
    };
    let priority = field_or_default(text, "priority", "must");
    let status = field_or_default(text, "status", "todo");
    let task_type = field_or_default(text, "type", "code");
    let requirement_refs = field_ids(text, "requirement refs", "REQ-");
    let prefixes = ["AC-", "ACC-"];
    let acceptance_refs = field_ids_any(text, "acceptance refs", prefixes.as_slice());
    let dependencies = field_ids(text, "depends on", "TASK-");
    let blocked_reason = opt_field(text, "blocked reason");
    let unblock_condition = opt_field(text, "unblock condition");
    let dropped_reason = opt_field(text, "dropped reason");
    let has_definition = has_completion_definition(text);
    proof {
        assert(acceptance_prefixes(prefixes@));
    }
    TaskDoc {
        id,
        priority,
        status,
        task_type,
        requirement_refs,
        acceptance_refs,
        dependencies,
        blocked_reason,
        unblock_condition,
        dropped_reason,
        has_definition,
    }
}

/// `tasks/index.md` declares `Has tasks: false` (case-insensitively).
pub open spec fn declares_no_tasks(text: Seq<char>) -> bool {
    match field_value_of(text, "has tasks"@) {
        Some(v) => eq_ignore_case(v, "false"@),
        None => false,
    }
}

/// Whether the task index declares that the change has no tasks.
pub fn has_tasks_false(text: &str) -> (r: bool)
    ensures
        r == declares_no_tasks(text@),
{
    match field_value(text, "has tasks") {
        Some(v) => {
            let cv = chars_of(v.as_str());
            eq_ignore_case_str(cv.as_slice(), "false")
        },
        None => false,
    }
}

/// Trimmed `|`-separated cells of a table line.
pub open spec fn cells_of(line: Seq<char>) -> Seq<Seq<char>> {
    Seq::new(split_by(line, Sep::Pipe).len(), |i: int| trim(split_by(line, Sep::Pipe)[i]))
}

/// The coverage row a table line declares, if it declares one: a
/// requirement, an acceptance criterion and a task in its first three
/// cells.
pub open spec fn coverage_of_line(line: Seq<char>) -> Option<(Seq<char>, Seq<char>, Seq<char>)> {
    let cells = cells_of(line);
    if has_prefix(trim_start(line), "|"@) && cells.len() >= 4 && has_prefix(cells[1], "REQ-"@) && (
    has_prefix(cells[2], "AC-"@) || has_prefix(cells[2], "ACC-"@)) && has_prefix(cells[3], "TASK-"@) {
        Some((cells[1], cells[2], cells[3]))
    } else {
        None
    }
}

/// The coverage rows declared by the lines `ls`, in order.
pub open spec fn coverage_rows(ls: Seq<Seq<char>>) -> Seq<(Seq<char>, Seq<char>, Seq<char>)>
    decreases ls.len(),
{
    if ls.len() == 0 {
        seq![]
    } else {
        let rows = coverage_rows(ls.drop_last());
        match coverage_of_line(ls.last()) {
            Some(row) => rows.push(row),
            None => rows,
        }
    }
}

pub open spec fn row_views(rows: Seq<CoverageRow>) -> Seq<(Seq<char>, Seq<char>, Seq<char>)> {
    Seq::new(rows.len(), |i: int| (rows[i].requirement@, rows[i].acceptance@, rows[i].task@))
}

fn coverage_line(line: &[char]) -> (r: Option<CoverageRow>)
    ensures
        match coverage_of_line(line@) {
            Some(row) => r matches Some(c) && (c.requirement@, c.acceptance@, c.task@) == row,
            None => r is None,
        },
{
    let (a, _) = crate::text::trim_bounds(line);
    if !(a < line.len() && line[a] == '|') {
        proof {
            let t = trim_start(line@);
            reveal_strlit("|");
            assert("|"@ =~= seq!['|']);
            if has_prefix(t, "|"@) {
                assert(t.take(1)[0] == t[0]);
                assert(t[0] == line@[a as int]);
            }
        }
        return None;
    }
    let pieces = split_chars(line, Sep::Pipe);
    let mut cells: Vec<Vec<char>> = Vec::new();
    let mut i: usize = 0;
    while i < pieces.len()
        invariant
            i <= pieces@.len(),
            views(pieces@) == split_by(line@, Sep::Pipe),
            cells@.len() == i,
            forall|j: int| 0 <= j < i ==> (#[trigger] cells@[j])@ == trim(views(pieces@)[j]),
        decreases pieces@.len() - i,
    {
        cells.push(trim_chars(pieces[i].as_slice()));
        i = i + 1;
    }
    proof {
        reveal_strlit("|");
        assert("|"@ =~= seq!['|']);
        let t = trim_start(line@);
        assert(t[0] == line@[a as int]);
        assert(t.take(1) =~= seq![t[0]]);
        assert(has_prefix(t, "|"@));
        assert forall|j: int| 0 <= j < cells@.len() implies (#[trigger] views(cells@)[j]) == cells_of(line@)[j] by {}
        assert(views(cells@) =~= cells_of(line@));
    }
    if cells.len() < 4 {
        return None;
    }
    let req = chars_of("REQ-");
    let ac = chars_of("AC-");
    let acc = chars_of("ACC-");
    let task = chars_of("TASK-");
    if starts_with(cells[1].as_slice(), req.as_slice()) && (starts_with(cells[2].as_slice(), ac.as_slice())
        || starts_with(cells[2].as_slice(), acc.as_slice())) && starts_with(cells[3].as_slice(), task.as_slice()) {
        proof {
            assert(views(cells@)[1] == cells@[1]@);
            assert(views(cells@)[2] == cells@[2]@);
            assert(views(cells@)[3] == cells@[3]@);
        }
        Some(CoverageRow {
            requirement: string_of(cells[1].as_slice()),
            acceptance: string_of(cells[2].as_slice()),
            task: string_of(cells[3].as_slice()),
        })
    } else {
        proof {
            assert(views(cells@)[1] == cells@[1]@);
            assert(views(cells@)[2] == cells@[2]@);
            assert(views(cells@)[3] == cells@[3]@);
        }
        None
    }
}

/// The rows of the coverage matrix in `tasks/index.md`: table lines whose
/// first three cells hold a requirement, an acceptance criterion and a task.
pub fn parse_coverage(text: &str) -> (r: Vec<CoverageRow>)
    ensures
        row_views(r@) == coverage_rows(lines(text@)),
{
    let tv = chars_of(text);
    let ls = split_lines(tv.as_slice());
    let ghost all = views(ls@);
    let mut rows: Vec<CoverageRow> = Vec::new();
    let mut i: usize = 0;
    assert(row_views(rows@) =~= coverage_rows(all.take(0)));
    while i < ls.len()
        invariant
            i <= ls@.len(),
            all == views(ls@),
            all == lines(text@),
            row_views(rows@) == coverage_rows(all.take(i as int)),
        decreases ls@.len() - i,
    {
        proof {
            assert(all.take(i + 1).drop_last() =~= all.take(i as int));
            assert(all.take(i + 1).last() == ls@[i as int]@);
        }
        match coverage_line(ls[i].as_slice()) {
            Some(row) => {
                let ghost before = row_views(rows@);
                rows.push(row);
                proof {
                    assert(row_views(rows@) =~= coverage_rows(all.take(i + 1)));
                }
            },
            None => {},
        }
        i = i + 1;
    }
    assert(all.take(ls@.len() as int) =~= all);
    rows
}


/// The sorted list without repetitions of a finite set of identifiers.
pub open spec fn sorted_ids(s: Set<Seq<char>>) -> Seq<Seq<char>> {
    choose|v: Seq<Seq<char>>| lists_set(v, s)
}

/// Two sorted lists without repetitions of the same set are equal.
pub proof fn lemma_sorted_unique(a: Seq<Seq<char>>, b: Seq<Seq<char>>)
    requires
        strictly_sorted(a),
        strictly_sorted(b),
        a.to_set() == b.to_set(),
    ensures
        a == b,
    decreases a.len(),
{
    if a.len() == 0 {
        if b.len() > 0 {
            assert(b.to_set().contains(b[0]));
        }
        assert(a =~= b);
    } else {
        assert(a.to_set().contains(a[0]));
        if b.len() == 0 {
            assert(!b.to_set().contains(a[0]));
        } else {
            lemma_first_is_least(a);
            lemma_first_is_least(b);
            let ra = a.drop_first();
            let rb = b.drop_first();
            assert(strictly_sorted(ra)) by {
                assert forall|i: int, j: int| 0 <= i < j < ra.len() implies lex_lt(#[trigger] ra[i], #[trigger] ra[j]) by {
                    assert(ra[i] == a[i + 1] && ra[j] == a[j + 1]);
                }
            }
            assert(strictly_sorted(rb)) by {
                assert forall|i: int, j: int| 0 <= i < j < rb.len() implies lex_lt(#[trigger] rb[i], #[trigger] rb[j]) by {
                    assert(rb[i] == b[i + 1] && rb[j] == b[j + 1]);
                }
            }
            assert(ra.to_set() =~= rb.to_set()) by {
                assert forall|e: Seq<char>| ra.to_set().contains(e) implies rb.to_set().contains(e) by {
                    let k = choose|k: int| 0 <= k < ra.len() && ra[k] == e;
                    assert(a[k + 1] == e);
                    assert(lex_lt(a[0], a[k + 1]));
                    crate::text::lemma_lex_irreflexive(e);
                    assert(a.to_set().contains(e));
                    assert(b.to_set().contains(e));
                    let m = choose|m: int| 0 <= m < b.len() && b[m] == e;
                    assert(m != 0);
                    assert(rb[m - 1] == e);
                }
                assert forall|e: Seq<char>| rb.to_set().contains(e) implies ra.to_set().contains(e) by {
                    let k = choose|k: int| 0 <= k < rb.len() && rb[k] == e;
                    assert(b[k + 1] == e);
                    assert(lex_lt(b[0], b[k + 1]));
                    crate::text::lemma_lex_irreflexive(e);
                    assert(b.to_set().contains(e));
                    assert(a.to_set().contains(e));
                    let m = choose|m: int| 0 <= m < a.len() && a[m] == e;
                    assert(m != 0);
                    assert(ra[m - 1] == e);
                }
            }
            lemma_sorted_unique(ra, rb);
            assert(a =~= seq![a[0]] + ra);
            assert(b =~= seq![b[0]] + rb);
        }
    }
}

/// A sorted list without repetitions of `s` is `sorted_ids(s)`.
pub proof fn lemma_sorted_ids(v: Seq<Seq<char>>, s: Set<Seq<char>>)
    requires
        lists_set(v, s),
    ensures
        sorted_ids(s) == v,
{
    let w = sorted_ids(s);
    assert(lists_set(w, s));
    lemma_sorted_unique(v, w);
}

} // verus!
