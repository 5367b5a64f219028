//! Knowledge-base layout shared by init, read and search: the default root,
//! the root documents and the four standard knowledge areas.

use vstd::prelude::*;
use crate::text::{chars_of, chars_equal, chars_equal_str, starts_with, string_of, push_chars, blank, is_blank};

verus! {

/// Default wiki root shared by `init`, `read`, and `search`.
pub const DEFAULT_WIKI_ROOT: &'static str = "docs";

/// Filename carrying global context at the wiki root.
pub const AGENTS_FILENAME: &'static str = "AGENTS.md";

/// Filename carrying the catalog and navigation aid at the wiki root.
pub const INDEX_FILENAME: &'static str = "index.md";

/// Filename carrying the spec-driven development workflow at the wiki root.
pub const SDD_FILENAME: &'static str = "SDD.md";

/// Append-only chronology parsed by `read --log-last` and `search`.
pub const LOG_FILENAME: &'static str = "log.md";

/// Number of standard knowledge areas.
pub const AREA_COUNT: usize = 4;

/// Name of the `i`-th knowledge area, in semantic priority order.
pub open spec fn area_name(i: int) -> Seq<char> {
    if i == 0 {
        "notes"@
    } else if i == 1 {
        "ideas"@
    } else if i == 2 {
        "projects"@
    } else {
        "sdd"@
    }
}

/// Purpose line of the `i`-th knowledge area.
pub open spec fn area_purpose(i: int) -> Seq<char> {
    if i == 0 {
        "verified source of truth"@
    } else if i == 1 {
        "original reasoning and preferences"@
    } else if i == 2 {
        "active work and verification"@
    } else {
        "spec-driven changes and archives"@
    }
}

/// Search heading label of the `i`-th knowledge area.
pub open spec fn area_label(i: int) -> Seq<char> {
    if i == 0 {
        "Notes / source of truth"@
    } else if i == 1 {
        "Ideas / original reasoning"@
    } else if i == 2 {
        "Projects / active work"@
    } else {
        "SDD / spec-driven changes"@
    }
}

/// A relative path lies in the area `name` when its first path component is
/// `name`: the path is `name` itself or starts with `name/`.
pub open spec fn in_area(path: Seq<char>, name: Seq<char>) -> bool {
    ||| path == name
    ||| (path.len() > name.len() && path.take(name.len() as int) == name && path[name.len() as int]
        == '/')
}

/// Index of the area owning a relative path, if any.
pub open spec fn area_of(path: Seq<char>) -> Option<int> {
    if in_area(path, area_name(0)) {
        Some(0)
    } else if in_area(path, area_name(1)) {
        Some(1)
    } else if in_area(path, area_name(2)) {
        Some(2)
    } else if in_area(path, area_name(3)) {
        Some(3)
    } else {
        None
    }
}

/// Label for a bare area name; any other name is a generic knowledge area.
pub open spec fn search_label(name: Seq<char>) -> Seq<char> {
    if name == area_name(0) {
        area_label(0)
    } else if name == area_name(1) {
        area_label(1)
    } else if name == area_name(2) {
        area_label(2)
    } else if name == area_name(3) {
        area_label(3)
    } else {
        "Knowledge area"@
    }
}

/// The `i`-th knowledge area as `(name, purpose)`.
pub fn knowledge_area(i: usize) -> (r: (&'static str, &'static str))
    requires
        i < AREA_COUNT,
    ensures
        r.0@ == area_name(i as int),
        r.1@ == area_purpose(i as int),
{
    if i == 0 {
        ("notes", "verified source of truth")
    } else if i == 1 {
        ("ideas", "original reasoning and preferences")
    } else if i == 2 {
        ("projects", "active work and verification")
    } else {
        ("sdd", "spec-driven changes and archives")
    }
}

/// Returns the canonical knowledge-area directory names.
pub fn knowledge_area_names() -> (r: [&'static str; 4])
    ensures
        forall|i: int| 0 <= i < 4 ==> (#[trigger] r@[i])@ == area_name(i),
{
    let r = ["notes", "ideas", "projects", "sdd"];
    assert(r@[0] == "notes");
    assert(r@[1] == "ideas");
    assert(r@[2] == "projects");
    assert(r@[3] == "sdd");
    r
}

/// Whether the characters of a relative path lie in the area `name`.
pub fn path_in_area(path: &[char], name: &str) -> (r: bool)
    ensures
        r == in_area(path@, name@),
{
    let n = chars_of(name);
    if chars_equal(path, n.as_slice()) {
        return true;
    }
    let mut with_slash = n.clone();
    with_slash.push('/');
    let r = path.len() > n.len() && starts_with(path, with_slash.as_slice());
    proof {
        if path@.len() > n@.len() {
            assert(with_slash@ == n@.push('/'));
            if path@.take(n@.len() as int) == n@ && path@[n@.len() as int] == '/' {
                assert(path@.take(with_slash@.len() as int) =~= with_slash@);
            }
            if path@.take(with_slash@.len() as int) == with_slash@ {
                assert(path@.take(n@.len() as int) =~= with_slash@.take(n@.len() as int));
                assert(with_slash@.take(n@.len() as int) =~= n@);
                assert(path@[n@.len() as int] == path@.take(with_slash@.len() as int)[n@.len() as int]);
            }
        }
    }
    r
}

/// Returns the area that owns a relative path inside the wiki root, or
/// `None` for root documents and custom categories.
pub fn knowledge_area_for_relative_path(path: &str) -> (r: Option<(&'static str, &'static str)>)
    ensures
        match area_of(path@) {
            Some(i) => r matches Some((name, purpose)) && name@ == area_name(i) && purpose@ == area_purpose(i),
            None => r is None,
        },
{
    let p = chars_of(path);
    let mut i: usize = 0;
    while i < AREA_COUNT
        invariant
            i <= AREA_COUNT,
            p@ == path@,
            forall|j: int| 0 <= j < i ==> !in_area(path@, #[trigger] area_name(j)),
        decreases AREA_COUNT - i,
    {
        let area = knowledge_area(i);
        if path_in_area(p.as_slice(), area.0) {
            return Some(area);
        }
        i = i + 1;
    }
    None
}

/// Human-readable label for `search --mode summary` headings.
pub fn area_search_label(name: &str) -> (r: &'static str)
    ensures
        r@ == search_label(name@),
{
    let v = chars_of(name);
    if chars_equal_str(v.as_slice(), "notes") {
        "Notes / source of truth"
    } else if chars_equal_str(v.as_slice(), "ideas") {
        "Ideas / original reasoning"
    } else if chars_equal_str(v.as_slice(), "projects") {
        "Projects / active work"
    } else if chars_equal_str(v.as_slice(), "sdd") {
        "SDD / spec-driven changes"
    } else {
        "Knowledge area"
    }
}

/// Backslashes turned into forward slashes.
pub open spec fn forward_slashes(s: Seq<char>) -> Seq<char> {
    Seq::new(s.len(), |i: int| if s[i] == '\\' { '/' } else { s[i] })
}

/// Display form of a path: forward slashes, with a Windows extended-length
/// prefix `//?/UNC/` shortened to `//` and `//?/` removed.
pub open spec fn display_form(s: Seq<char>) -> Seq<char> {
    let f = forward_slashes(s);
    let unc = seq!['/', '/', '?', '/', 'U', 'N', 'C', '/'];
    let ext = seq!['/', '/', '?', '/'];
    if f.len() >= 8 && f.take(8) == unc {
        seq!['/', '/'] + f.skip(8)
    } else if f.len() >= 4 && f.take(4) == ext {
        f.skip(4)
    } else {
        f
    }
}

/// Display a path with forward slashes for stable, human-readable output.
pub fn display_path(path: &str) -> (r: String)
    ensures
        r@ == display_form(path@),
{
    let v = chars_of(path);
    let mut f: Vec<char> = Vec::new();
    let mut i: usize = 0;
    while i < v.len()
        invariant
            i <= v@.len(),
            v@ == path@,
            f@ =~= forward_slashes(v@.take(i as int)),
        decreases v@.len() - i,
    {
        if v[i] == '\\' {
            f.push('/');
        } else {
            f.push(v[i]);
        }
        i = i + 1;
        assert(f@ =~= forward_slashes(v@.take(i as int)));
    }
    assert(v@.take(v@.len() as int) == v@);
    let unc = ['/', '/', '?', '/', 'U', 'N', 'C', '/'];
    let ext = ['/', '/', '?', '/'];
    assert(unc@ =~= seq!['/', '/', '?', '/', 'U', 'N', 'C', '/']);
    assert(ext@ =~= seq!['/', '/', '?', '/']);
    if starts_with(f.as_slice(), unc.as_slice()) {
        let mut r = string_of(['/', '/'].as_slice());
        let rest = crate::text::slice_chars(f.as_slice(), 8, f.len());
        push_chars(&mut r, rest.as_slice());
        assert(['/', '/']@ =~= seq!['/', '/']);
        r
    } else if starts_with(f.as_slice(), ext.as_slice()) {
        let rest = crate::text::slice_chars(f.as_slice(), 4, f.len());
        string_of(rest.as_slice())
    } else {
        string_of(f.as_slice())
    }
}

/// The caller-side problem with a wiki root, if any, for the command
/// named `label`: a blank path, a missing path or a path that is not a
/// directory, checked in that order.
pub open spec fn root_error(label: Seq<char>, raw: Seq<char>, exists: bool, is_dir: bool) -> Option<
    Seq<char>,
> {
    if is_blank(raw) {
        Some("wiki "@ + label + " path must be a non-empty directory path."@)
    } else if !exists {
        Some("wiki "@ + label + " path does not exist: "@ + raw)
    } else if !is_dir {
        Some("wiki "@ + label + " path is not a directory: "@ + raw)
    } else {
        None
    }
}

/// Checks a wiki root given what the filesystem reports about it.
pub fn check_root(label: &str, raw: &str, exists: bool, is_dir: bool) -> (r: Result<(), String>)
    ensures
        match root_error(label@, raw@, exists, is_dir) {
            Some(m) => r matches Err(e) && e@ == m,
            None => r is Ok,
        },
{
    let v = chars_of(raw);
    let mut m = String::from_str("wiki ");
    m.append(label);
    if blank(v.as_slice()) {
        m.append(" path must be a non-empty directory path.");
        return Err(m);
    }
    if !exists {
        m.append(" path does not exist: ");
        m.append(raw);
        return Err(m);
    }
    if !is_dir {
        m.append(" path is not a directory: ");
        m.append(raw);
        return Err(m);
    }
    Ok(())
}

} // verus!
