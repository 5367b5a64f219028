//! `wiki read` — the structured overview of a markdown wiki directory.
//!
//! The overview reports the page count, category breakdown, standard
//! knowledge-area counts, last-modified time, global context from
//! `AGENTS.md`, the contents of `index.md`, and optionally the last N entries
//! of `log.md` (parseable prefix `## [YYYY-MM-DD]`). The filesystem walk
//! hands this module one [`PageEntry`] per Markdown file and the root
//! documents' contents; everything computed from them is here.

use vstd::prelude::*;
use crate::fmt::{decimal, padded, push_decimal, push_padded};
use crate::shared::{
    area_name, area_of, area_purpose, check_root, display_form, display_path, in_area, knowledge_area, path_in_area,
    root_error, AGENTS_FILENAME, AREA_COUNT, DEFAULT_WIKI_ROOT, INDEX_FILENAME, LOG_FILENAME,
};
use crate::text::{
    chars_equal_str, chars_of, find_newline, lemma_newline_at_bound, insert_sorted, is_ws, join, lex_lt, lines, newline_at,
    push_chars, push_joined, push_joined_strings, raw_lines, slice_chars, split_lines, starts_with, strictly_sorted,
    string_of, strings_of, str_views, trim_bounds, trim_start, views, ws_prefix_len,
};

verus! {

pub const DEFAULT_INDEX_HEAD_LIMIT: usize = 200;

pub const HARD_INDEX_HEAD_LIMIT: usize = 2_000;

pub const HARD_LOG_LAST: usize = 50;

pub const HARD_PAGE_CAP: usize = 5_000;

/// Read options; all `bool`s default to true so the most useful
/// representation is also the one with the fewest flags.
pub struct ReadOptions {
    /// Absolute path of the wiki root, or a path relative to the session
    /// working directory. Defaults to `docs/`.
    pub path: Option<String>,
    /// Include the wiki's `index.md` contents.
    pub include_index: bool,
    /// Include root `AGENTS.md` global context before the index.
    pub include_agents: bool,
    /// Number of most-recent `log.md` entries to show. 0 = omit the log
    /// section entirely.
    pub include_log_last: usize,
    /// Hard cap on the lines of `index.md` returned.
    pub index_head_limit: usize,
    /// Hard cap on lines of root `AGENTS.md` returned.
    pub agents_head_limit: usize,
    /// When true (default) the tool reports whether the directory looks like
    /// a wiki. When false it treats the directory as an arbitrary markdown
    /// tree and skips the hint.
    pub strict: bool,
}

pub open spec fn clamp(v: int, lo: int, hi: int) -> int {
    if v < lo {
        lo
    } else if v > hi {
        hi
    } else {
        v
    }
}

impl ReadOptions {
    /// Number of log entries shown: at most the hard ceiling of 50.
    pub fn resolve_log_last(&self) -> (r: usize)
        ensures
            r == if self.include_log_last <= HARD_LOG_LAST {
                self.include_log_last
            } else {
                HARD_LOG_LAST
            },
    {
        if self.include_log_last <= HARD_LOG_LAST {
            self.include_log_last
        } else {
            HARD_LOG_LAST
        }
    }

    /// Lines of `index.md` shown: between 1 and the hard ceiling of 2,000.
    pub fn resolve_index_head(&self) -> (r: usize)
        ensures
            r == clamp(self.index_head_limit as int, 1, HARD_INDEX_HEAD_LIMIT as int),
    {
        clamp_usize(self.index_head_limit, 1, HARD_INDEX_HEAD_LIMIT)
    }

    /// Lines of `AGENTS.md` shown: between 1 and the hard ceiling of 2,000.
    pub fn resolve_agents_head(&self) -> (r: usize)
        ensures
            r == clamp(self.agents_head_limit as int, 1, HARD_INDEX_HEAD_LIMIT as int),
    {
        clamp_usize(self.agents_head_limit, 1, HARD_INDEX_HEAD_LIMIT)
    }
}

/// `usize::clamp`.
pub fn clamp_usize(v: usize, lo: usize, hi: usize) -> (r: usize)
    requires
        lo <= hi,
    ensures
        r == clamp(v as int, lo as int, hi as int),
{
    if v < lo {
        lo
    } else if v > hi {
        hi
    } else {
        v
    }
}

pub enum ReadError {
    /// Caller-side problem: empty path, missing directory, file pointed at,
    /// etc. The CLI maps this to a non-zero exit with the message.
    Invalid(String),
    /// Filesystem error during scan.
    Io(String),
}

impl ReadError {
    /// The message carried by the error.
    pub fn message(&self) -> (r: String)
        ensures
            r@ == match self {
                ReadError::Invalid(m) => m@,
                ReadError::Io(m) => m@,
            },
    {
        match self {
            ReadError::Invalid(m) => m.clone(),
            ReadError::Io(m) => m.clone(),
        }
    }
}

/// The wiki root for `path`: the given path or `docs`, checked against what
/// the filesystem reports about it.
pub fn resolve_root(input: Option<&str>, exists: bool, is_dir: bool) -> (r: Result<
    String,
    ReadError,
>)
    ensures
        ({
            let raw = match input {
                Some(p) => p@,
                None => DEFAULT_WIKI_ROOT@,
            };
            match root_error("read"@, raw, exists, is_dir) {
                Some(m) => r matches Err(ReadError::Invalid(e)) && e@ == m,
                None => r matches Ok(root) && root@ == raw,
            }
        }),
{
    let raw = match input {
        Some(p) => p,
        None => DEFAULT_WIKI_ROOT,
    };
    match check_root("read", raw, exists, is_dir) {
        Err(message) => Err(ReadError::Invalid(message)),
        Ok(()) => Ok(String::from_str(raw)),
    }
}

// ---------------------------------------------------------------------------
// Calendar arithmetic
// ---------------------------------------------------------------------------
/// Howard Hinnant's civil-from-days: the proleptic Gregorian date
/// `(year, month, day)` of the day `days` counted from 1970-01-01.
pub open spec fn civil_from_days(days: nat) -> (int, int, int) {
    let z = days + 719_468;
    let era = z / 146_097;
    let doe = z - era * 146_097;
    let yoe = (doe - doe / 1460 + doe / 36_524 - doe / 146_096) / 365;
    let y = yoe + era * 400;
    let doy = doe - (365 * yoe + yoe / 4 - yoe / 100);
    let mp = (5 * doy + 2) / 153;
    let d = doy - (153 * mp + 2) / 5 + 1;
    let m = if mp < 10 {
        mp + 3
    } else {
        mp - 9
    };
    (if m <= 2 {
        y + 1
    } else {
        y
    }, m, d)
}

/// Calendar date and time of day of a Unix timestamp, in UTC.
pub open spec fn calendar(secs: nat) -> (int, int, int, int, int, int) {
    let (y, m, d) = civil_from_days(secs / 86_400);
    let sod = secs % 86_400;
    (y, m, d, (sod / 3600) as int, ((sod % 3600) / 60) as int, (sod % 60) as int)
}

proof fn lemma_civil_bounds(doe: u32)
    requires
        doe < 146097,
    ensures
        ({
            let yoe = (doe - doe / 1460 + doe / 36524 - doe / 146096) / 365;
            &&& yoe <= 399
            &&& 365 * yoe + yoe / 4 - yoe / 100 <= doe
            &&& doe - (365 * yoe + yoe / 4 - yoe / 100) <= 365
        }),
{
    assert({
        let yoe = (doe - doe / 1460 + doe / 36524 - doe / 146096) / 365;
        &&& yoe <= 399
        &&& 365 * yoe + yoe / 4 - yoe / 100 <= doe
        &&& doe - (365 * yoe + yoe / 4 - yoe / 100) <= 365
    }) by (bit_vector)
        requires
            doe < 146097u32,
    ;
}

proof fn lemma_month_bounds(doy: u32)
    requires
        doy <= 365,
    ensures
        ({
            let mp = (5 * doy + 2) / 153;
            &&& mp <= 11
            &&& (153 * mp + 2) / 5 <= doy
            &&& doy - (153 * mp + 2) / 5 + 1 <= 31
        }),
{
    assert({
        let mp = (5 * doy + 2) / 153;
        &&& mp <= 11
        &&& (153 * mp + 2) / 5 <= doy
        &&& doy - (153 * mp + 2) / 5 + 1 <= 31
    }) by (bit_vector)
        requires
            doy <= 365u32,
    ;
}

/// Howard Hinnant's civil-from-days algorithm applied to a Unix timestamp:
/// `(year, month, day, hour, minute, second)` in UTC.
pub fn epoch_to_calendar(secs: u64) -> (r: Option<(i32, u32, u32, u32, u32, u32)>)
    ensures
        ({
            let (y, m, d, h, mi, s) = calendar(secs as nat);
            r == Some((y as i32, m as u32, d as u32, h as u32, mi as u32, s as u32))
        }),
        r matches Some((_, m, d, h, mi, s)) && 1 <= m <= 12 && 1 <= d <= 31 && h < 24 && mi < 60
            && s < 60,
{
    let days = secs / 86_400;
    let secs_of_day = secs % 86_400;
    let hour = secs_of_day / 3600;
    let minute = (secs_of_day % 3600) / 60;
    let second = secs_of_day % 60;
    let z = days + 719_468;
    let era = z / 146_097;
    let doe = z - era * 146_097;
    proof {
        lemma_civil_bounds(doe as u32);
    }
    let yoe = (doe - doe / 1460 + doe / 36_524 - doe / 146_096) / 365;
    let y = yoe + era * 400;
    let doy = doe - (365 * yoe + yoe / 4 - yoe / 100);
    proof {
        lemma_month_bounds(doy as u32);
    }
    let mp = (5 * doy + 2) / 153;
    let d = doy - (153 * mp + 2) / 5 + 1;
    let m = if mp < 10 {
        mp + 3
    } else {
        mp - 9
    };
    let year = if m <= 2 {
        y + 1
    } else {
        y
    };
    Some((year as i32, m as u32, d as u32, hour as u32, minute as u32, second as u32))
}

/// `{year:04}`: the year zero-padded to four characters, sign included.
pub open spec fn year_text(year: int) -> Seq<char> {
    if year < 0 {
        seq!['-'] + padded((-year) as nat, 3)
    } else {
        padded(year as nat, 4)
    }
}

/// `YYYY-MM-DDTHH:MM:SSZ` for the given calendar fields.
pub open spec fn timestamp_text(y: int, m: nat, d: nat, h: nat, mi: nat, s: nat) -> Seq<char> {
    year_text(y) + seq!['-'] + padded(m, 2) + seq!['-'] + padded(d, 2) + seq!['T'] + padded(h, 2)
        + seq![':'] + padded(mi, 2) + seq![':'] + padded(s, 2) + seq!['Z']
}

/// `YYYY-MM-DDTHH:MM:SSZ` for a Unix timestamp, the year taken as an `i32`.
pub open spec fn iso8601(secs: nat) -> Seq<char> {
    let (y, m, d, h, mi, s) = calendar(secs);
    timestamp_text((y as i32) as int, m as nat, d as nat, h as nat, mi as nat, s as nat)
}

fn push_year(out: &mut String, year: i32)
    ensures
        final(out)@ == old(out)@ + year_text(year as int),
{
    if year < 0 {
        out.append("-");
        let magnitude = (0i64 - year as i64) as u64;
        push_padded(out, magnitude, 3);
        proof {
            reveal_strlit("-");
            assert(final(out)@ =~= old(out)@ + year_text(year as int));
        }
    } else {
        push_padded(out, year as u64, 4);
    }
}

fn timestamp(year: i32, month: u32, day: u32, hour: u32, minute: u32, second: u32) -> (r: String)
    ensures
        r@ == timestamp_text(
            year as int,
            month as nat,
            day as nat,
            hour as nat,
            minute as nat,
            second as nat,
        ),
{
    let mut out = String::new();
    push_year(&mut out, year);
    out.append("-");
    push_padded(&mut out, month as u64, 2);
    out.append("-");
    push_padded(&mut out, day as u64, 2);
    out.append("T");
    push_padded(&mut out, hour as u64, 2);
    out.append(":");
    push_padded(&mut out, minute as u64, 2);
    out.append(":");
    push_padded(&mut out, second as u64, 2);
    out.append("Z");
    proof {
        reveal_strlit("-");
        reveal_strlit("T");
        reveal_strlit(":");
        reveal_strlit("Z");
        assert(out@ =~= timestamp_text(
            year as int,
            month as nat,
            day as nat,
            hour as nat,
            minute as nat,
            second as nat,
        ));
    }
    out
}

/// The time `secs` seconds after the Unix epoch rendered as
/// `YYYY-MM-DDTHH:MM:SSZ` in UTC.
pub fn format_iso8601_short(secs: u64) -> (r: Option<String>)
    ensures
        r matches Some(t) && t@ == iso8601(secs as nat),
{
    let (year, month, day, hour, minute, second) = match epoch_to_calendar(secs) {
        Some(parts) => parts,
        None => {
            return None;
        },
    };
    Some(timestamp(year, month, day, hour, minute, second))
}

// ---------------------------------------------------------------------------
// Root documents and the log
// ---------------------------------------------------------------------------
/// Concatenation of a sequence of character sequences.
pub open spec fn concat(items: Seq<Seq<char>>) -> Seq<char>
    decreases items.len(),
{
    if items.len() == 0 {
        seq![]
    } else {
        concat(items.drop_last()) + items.last()
    }
}

/// Each line followed by `'\n'`.
pub open spec fn newline_terminated(ls: Seq<Seq<char>>) -> Seq<Seq<char>> {
    Seq::new(ls.len(), |i: int| ls[i].push('\n'))
}

/// Re-terminates every line of `body` with `'\n'` (dropping `'\r'` from
/// `"\r\n"` endings).
pub open spec fn normalized(body: Seq<char>) -> Seq<char> {
    concat(newline_terminated(lines(body)))
}

/// Appends every line of `ls`, each followed by `'\n'`.
fn push_lines(s: &mut String, ls: &Vec<Vec<char>>)
    ensures
        final(s)@ == old(s)@ + concat(newline_terminated(views(ls@))),
{
    let mut i: usize = 0;
    while i < ls.len()
        invariant
            i <= ls@.len(),
            s@ == old(s)@ + concat(newline_terminated(views(ls@).take(i as int))),
        decreases ls@.len() - i,
    {
        push_chars(s, ls[i].as_slice());
        crate::text::push_char(s, '\n');
        proof {
            let t = newline_terminated(views(ls@).take(i + 1));
            assert(t.drop_last() =~= newline_terminated(views(ls@).take(i as int)));
            assert(t.last() == ls@[i as int]@.push('\n'));
        }
        i = i + 1;
    }
    assert(views(ls@).take(ls@.len() as int) =~= views(ls@));
}

/// Every line of `body` re-terminated with a single `'\n'`.
pub fn normalize_head(body: &str) -> (r: String)
    ensures
        r@ == normalized(body@),
{
    let v = chars_of(body);
    let ls = split_lines(v.as_slice());
    let mut out = String::new();
    push_lines(&mut out, &ls);
    out
}

/// The head of a root document: its first `limit` lines exactly as written,
/// or, when the document has more lines, those lines re-terminated with
/// `'\n'`; and whether lines were cut.
pub open spec fn head_of(content: Seq<char>, limit: nat) -> (Seq<char>, bool) {
    let raw = raw_lines(content);
    if raw.len() <= limit {
        (content, false)
    } else {
        (normalized(concat(raw.take(limit as int))), true)
    }
}

proof fn lemma_concat_single(x: Seq<char>)
    ensures
        concat(seq![x]) == x,
{
    assert(seq![x].drop_last() =~= Seq::<Seq<char>>::empty());
    assert(concat(Seq::<Seq<char>>::empty()) == Seq::<char>::empty());
    assert(seq![x].last() == x);
    assert(Seq::<char>::empty() + x =~= x);
}

proof fn lemma_raw_lines_concat(s: Seq<char>)
    ensures
        concat(raw_lines(s)) == s,
    decreases s.len(),
{
    if s.len() > 0 {
        let k = newline_at(s);
        lemma_newline_at_bound(s);
        if k < s.len() {
            let head = s.take(k + 1 as int);
            lemma_raw_lines_concat(s.skip(k + 1 as int));
            lemma_concat_prepend(seq![head], raw_lines(s.skip(k + 1 as int)));
            lemma_concat_single(head);
            assert(s =~= head + s.skip(k + 1 as int));
        } else {
            lemma_concat_single(s);
        }
    }
}

/// `concat` distributes over `+`.
pub proof fn lemma_concat_prepend(a: Seq<Seq<char>>, b: Seq<Seq<char>>)
    ensures
        concat(a + b) == concat(a) + concat(b),
    decreases b.len(),
{
    if b.len() == 0 {
        assert(a + b =~= a);
        assert(concat(a) + concat(b) =~= concat(a));
    } else {
        lemma_concat_prepend(a, b.drop_last());
        assert((a + b).drop_last() =~= a + b.drop_last());
        assert((a + b).last() == b.last());
        assert(concat(a + b) =~= concat(a) + concat(b));
    }
}

/// Lines of `v[start..]` with their terminators: the raw pieces.
fn raw_line_end(v: &[char], start: usize) -> (e: usize)
    requires
        start < v@.len(),
    ensures
        start < e <= v@.len(),
        v@.subrange(start as int, e as int) == raw_lines(v@.skip(start as int))[0],
        v@.skip(e as int) == v@.skip(start as int).skip(e - start),
        raw_lines(v@.skip(start as int)) == seq![v@.subrange(start as int, e as int)] + raw_lines(
            v@.skip(e as int),
        ),
{
    let k = find_newline(v, start);
    let ghost t = v@.skip(start as int);
    if k < v.len() {
        proof {
            assert(t.take(k - start + 1) =~= v@.subrange(start as int, k + 1));
            assert(t.skip(k - start + 1) =~= v@.skip(k + 1));
        }
        k + 1
    } else {
        proof {
            assert(t =~= v@.subrange(start as int, k as int));
            assert(v@.skip(k as int).len() == 0);
            assert(raw_lines(v@.skip(k as int)) =~= Seq::<Seq<char>>::empty());
            assert(t.skip(k - start) =~= v@.skip(k as int));
        }
        k
    }
}

/// The head of a root document limited to `limit` lines, and whether the
/// document had more lines than that.
pub fn head_lines(content: &str, limit: usize) -> (r: (String, bool))
    ensures
        (r.0@, r.1) == head_of(content@, limit as nat),
{
    let v = chars_of(content);
    let mut pos: usize = 0;
    let mut count: usize = 0;
    proof {
        assert(v@.skip(0) =~= v@);
        assert(v@.subrange(0, 0) =~= concat(raw_lines(v@).take(0)));
    }
    while count < limit && pos < v.len()
        invariant
            count <= limit,
            pos <= v@.len(),
            count <= raw_lines(v@).len(),
            v@.subrange(0, pos as int) == concat(raw_lines(v@).take(count as int)),
            raw_lines(v@) == raw_lines(v@).take(count as int) + raw_lines(v@.skip(pos as int)),
        decreases limit - count,
    {
        let e = raw_line_end(v.as_slice(), pos);
        proof {
            let all = raw_lines(v@);
            let piece = v@.subrange(pos as int, e as int);
            assert(raw_lines(v@.skip(pos as int))[0] == piece);
            assert(all[count as int] == piece);
            assert(all.take(count + 1) =~= all.take(count as int).push(piece));
            assert(all.take(count + 1).drop_last() =~= all.take(count as int));
            assert(v@.subrange(0, e as int) =~= v@.subrange(0, pos as int) + piece);
            assert(all =~= all.take(count + 1) + raw_lines(v@.skip(e as int)));
        }
        pos = e;
        count = count + 1;
    }
    proof {
        lemma_raw_lines_concat(v@);
    }
    if pos >= v.len() {
        proof {
            assert(v@.skip(pos as int).len() == 0);
            assert(raw_lines(v@.skip(pos as int)) =~= Seq::<Seq<char>>::empty());
            assert(raw_lines(v@).take(count as int) =~= raw_lines(v@));
            assert(v@.subrange(0, pos as int) =~= v@);
        }
        (string_of(v.as_slice()), false)
    } else {
        proof {
            assert(v@.skip(pos as int).len() > 0);
            assert(raw_lines(v@.skip(pos as int)).len() > 0);
        }
        let head = slice_chars(v.as_slice(), 0, pos);
        let body = string_of(head.as_slice());
        (normalize_head(body.as_str()), true)
    }
}

/// Keeps the newest `limit` items: the oldest is dropped once `limit` is
/// reached.
pub fn push_bounded<T>(items: &mut Vec<T>, item: T, limit: usize)
    requires
        old(items)@.len() <= limit,
        limit > 0,
    ensures
        final(items)@ == last_n(old(items)@.push(item), limit as nat),
        final(items)@.len() <= limit,
{
    if items.len() == limit {
        items.remove(0);
    }
    items.push(item);
    proof {
        let s = old(items)@.push(item);
        if old(items)@.len() == limit {
            assert(final(items)@ =~= s.skip(s.len() - limit));
        } else {
            assert(final(items)@ =~= s);
        }
    }
}

/// The newest `n` items of `s`.
pub open spec fn last_n<T>(s: Seq<T>, n: nat) -> Seq<T> {
    if s.len() <= n {
        s
    } else {
        s.skip(s.len() - n)
    }
}

/// A log entry starts at a line that begins, after leading whitespace, with
/// `## [`.
pub open spec fn is_entry_marker(line: Seq<char>) -> bool {
    let t = trim_start(line);
    t.len() >= 4 && t.take(4) == seq!['#', '#', ' ', '[']
}

/// The log read line by line: the completed entries, the entry being read,
/// and the lines seen before the first entry, each line re-terminated.
pub open spec fn log_state(ls: Seq<Seq<char>>) -> (Seq<Seq<char>>, Option<Seq<char>>, Seq<
    Seq<char>,
>)
    decreases ls.len(),
{
    if ls.len() == 0 {
        (seq![], None, seq![])
    } else {
        let (entries, current, tail) = log_state(ls.drop_last());
        let line = ls.last();
        if is_entry_marker(line) {
            (
                match current {
                    Some(c) => entries.push(c),
                    None => entries,
                },
                Some(line.push('\n')),
                tail,
            )
        } else {
            match current {
                Some(c) => (entries, Some(c + line.push('\n')), tail),
                None => (entries, None, tail.push(line.push('\n'))),
            }
        }
    }
}

/// The last `n` entries of a log: entries start at `## [` lines; a log
/// without entry markers yields its last `n` lines instead.
pub open spec fn last_log_entries(text: Seq<char>, n: nat) -> Seq<char> {
    if n == 0 {
        seq![]
    } else {
        let (entries, current, tail) = log_state(lines(text));
        match current {
            Some(c) => concat(last_n(entries.push(c), n)),
            None => concat(last_n(tail, n)),
        }
    }
}

/// Whether a line opens a log entry.
fn entry_marker(line: &[char]) -> (r: bool)
    ensures
        r == is_entry_marker(line@),
{
    let (a, _) = trim_bounds(line);
    let t = slice_chars(line, a, line.len());
    let marker = ['#', '#', ' ', '['];
    assert(marker@ =~= seq!['#', '#', ' ', '[']);
    assert(t@ =~= trim_start(line@));
    starts_with(t.as_slice(), marker.as_slice())
}

proof fn lemma_last_n_push<T>(s: Seq<T>, x: T, n: nat)
    requires
        n > 0,
    ensures
        last_n(last_n(s, n).push(x), n) == last_n(s.push(x), n),
{
    let a = last_n(s, n);
    if s.len() <= n {
    } else {
        assert(a.push(x) =~= s.push(x).skip(s.len() - n));
        assert(last_n(a.push(x), n) =~= last_n(s.push(x), n));
    }
}

/// Returns the last `n` log entries — each entry starts with a line
/// beginning with `## [`. Falls back to the last `n` lines when no
/// recognised entry markers are present.
pub fn extract_last_log_entries(text: &str, n: usize) -> (r: String)
    ensures
        r@ == last_log_entries(text@, n as nat),
{
    if n == 0 {
        return String::new();
    }
    let v = chars_of(text);
    let ls = split_lines(v.as_slice());
    let mut tail: Vec<Vec<char>> = Vec::new();
    let mut entries: Vec<Vec<char>> = Vec::new();
    let mut current: Option<Vec<char>> = None;
    let mut i: usize = 0;
    while i < ls.len()
        invariant
            n > 0,
            i <= ls@.len(),
            views(ls@) == lines(text@),
            entries@.len() <= n,
            tail@.len() <= n,
            ({
                let (es, cur, tl) = log_state(views(ls@).take(i as int));
                &&& views(entries@) == last_n(es, n as nat)
                &&& views(tail@) == last_n(tl, n as nat)
                &&& match cur {
                    Some(c) => current matches Some(x) && x@ == c,
                    None => current is None,
                }
            }),
        decreases ls@.len() - i,
    {
        let ghost prev = log_state(views(ls@).take(i as int));
        let mut line = ls[i].clone();
        proof {
            assert(views(ls@).take(i + 1).drop_last() =~= views(ls@).take(i as int));
            assert(views(ls@).take(i + 1).last() == ls@[i as int]@);
        }
        if entry_marker(line.as_slice()) {
            let ghost es_views = views(entries@);
            match current.take() {
                Some(entry) => {
                    let ghost ev = entry@;
                    push_bounded(&mut entries, entry, n);
                    proof {
                        assert(views(entries@) =~= last_n(es_views.push(ev), n as nat));
                        lemma_last_n_push(prev.0, ev, n as nat);
                    }
                },
                None => {},
            }
            line.push('\n');
            current = Some(line);
        } else {
            match current {
                Some(ref mut entry) => {
                    entry.append(&mut line);
                    entry.push('\n');
                },
                None => {
                    let ghost tv = views(tail@);
                    line.push('\n');
                    let ghost lv = line@;
                    push_bounded(&mut tail, line, n);
                    proof {
                        assert(views(tail@) =~= last_n(tv.push(lv), n as nat));
                        lemma_last_n_push(prev.2, lv, n as nat);
                    }
                },
            }
        }
        i = i + 1;
    }
    assert(views(ls@).take(ls@.len() as int) =~= views(ls@));
    let ghost state = log_state(lines(text@));
    let mut out = String::new();
    match current {
        Some(entry) => {
            let ghost ev = views(entries@);
            let ghost c = entry@;
            push_bounded(&mut entries, entry, n);
            proof {
                assert(state.1 == Some(c));
                assert(ev == last_n(state.0, n as nat));
                assert(views(entries@) =~= last_n(ev.push(c), n as nat));
                lemma_last_n_push(state.0, c, n as nat);
            }
            push_concat(&mut out, &entries);
            proof {
                assert(out@ =~= concat(last_n(state.0.push(c), n as nat)));
            }
        },
        None => {
            push_concat(&mut out, &tail);
            proof {
                assert(state.1 is None);
                assert(out@ =~= concat(last_n(state.2, n as nat)));
            }
        },
    }
    out
}

/// Appends every item of `items`.
pub fn push_concat(s: &mut String, items: &Vec<Vec<char>>)
    ensures
        final(s)@ == old(s)@ + concat(views(items@)),
{
    let mut i: usize = 0;
    while i < items.len()
        invariant
            i <= items@.len(),
            s@ == old(s)@ + concat(views(items@).take(i as int)),
        decreases items@.len() - i,
    {
        push_chars(s, items[i].as_slice());
        proof {
            assert(views(items@).take(i + 1).drop_last() =~= views(items@).take(i as int));
        }
        i = i + 1;
    }
    assert(views(items@).take(items@.len() as int) =~= views(items@));
}


// ---------------------------------------------------------------------------
// The page walk
// ---------------------------------------------------------------------------
/// One file found under the wiki root.
pub struct PageEntry {
    /// Path relative to the root, components separated by `/`.
    pub relative: String,
    /// Modification time in nanoseconds relative to the Unix epoch, when the
    /// filesystem reported one.
    pub modified: Option<i128>,
}

/// The contents of the root documents, for those that could be read.
pub struct RootDocs {
    pub agents: Option<String>,
    pub index: Option<String>,
    pub log: Option<String>,
}

/// The last path component.
pub open spec fn file_name_of(path: Seq<char>) -> Seq<char>
    decreases path.len(),
{
    if path.len() == 0 {
        path
    } else if path.last() == '/' {
        seq![]
    } else {
        file_name_of(path.drop_last()).push(path.last())
    }
}

/// `Path::extension() == Some("md")`: the file name ends in `.md` after at
/// least one other character.
pub open spec fn is_markdown_path(path: Seq<char>) -> bool {
    let name = file_name_of(path);
    name.len() > 3 && name.skip(name.len() - 3) == seq!['.', 'm', 'd']
}

/// Index of the first `/`, or the length.
pub open spec fn slash_at(path: Seq<char>) -> nat
    decreases path.len(),
{
    if path.len() == 0 {
        0
    } else if path[0] == '/' {
        0
    } else {
        1 + slash_at(path.drop_first())
    }
}

/// The top-level directory of a page below the root: its first path
/// component, when the path has more than one.
pub open spec fn category_of(path: Seq<char>) -> Option<Seq<char>> {
    let k = slash_at(path);
    if k < path.len() && k > 0 && path.take(k as int) != seq!['.'] {
        Some(path.take(k as int))
    } else {
        None
    }
}

/// What the walk has gathered so far.
pub struct ScanSpec {
    pub count: nat,
    pub categories: Set<Seq<char>>,
    pub areas: Seq<nat>,
    pub has_agents: bool,
    pub has_index: bool,
    pub has_log: bool,
    pub last: Option<(int, Seq<char>)>,
    pub stopped: bool,
}

pub open spec fn empty_scan() -> ScanSpec {
    ScanSpec {
        count: 0,
        categories: Set::empty(),
        areas: seq![0nat, 0nat, 0nat, 0nat],
        has_agents: false,
        has_index: false,
        has_log: false,
        last: None,
        stopped: false,
    }
}

/// One file of the walk: Markdown pages are counted, the newest
/// modification is remembered (the first of equal times wins), root
/// documents are noted, and other pages add their category and area. The
/// walk stops once a non-root page brings the count to the page cap.
pub open spec fn scan_step(st: ScanSpec, path: Seq<char>, modified: Option<int>) -> ScanSpec {
    if st.stopped || !is_markdown_path(path) {
        st
    } else {
        let count = st.count + 1;
        let last = match modified {
            Some(t) => match st.last {
                Some(prev) => if prev.0 < t {
                    Some((t, path))
                } else {
                    st.last
                },
                None => Some((t, path)),
            },
            None => st.last,
        };
        let st1 = ScanSpec { count, last, ..st };
        if path == AGENTS_FILENAME@ {
            ScanSpec { has_agents: true, ..st1 }
        } else if path == INDEX_FILENAME@ {
            ScanSpec { has_index: true, ..st1 }
        } else if path == LOG_FILENAME@ {
            ScanSpec { has_log: true, ..st1 }
        } else {
            let categories = match category_of(path) {
                Some(c) => st.categories.insert(c),
                None => st.categories,
            };
            let areas = match area_of(path) {
                Some(i) => st.areas.update(i, st.areas[i] + 1),
                None => st.areas,
            };
            ScanSpec { categories, areas, stopped: count >= HARD_PAGE_CAP, ..st1 }
        }
    }
}

pub open spec fn entry_modified(e: PageEntry) -> Option<int> {
    match e.modified {
        Some(t) => Some(t as int),
        None => None,
    }
}

/// The walk over the first `entries.len()` files.
pub open spec fn scan_pages(entries: Seq<PageEntry>) -> ScanSpec
    decreases entries.len(),
{
    if entries.len() == 0 {
        empty_scan()
    } else {
        let e = entries.last();
        scan_step(scan_pages(entries.drop_last()), e.relative@, entry_modified(e))
    }
}

/// Entry `i` is a Markdown page the walk counts: the walk had not stopped
/// at the page cap before reaching it.
pub open spec fn counted_page(entries: Seq<PageEntry>, i: int) -> bool {
    &&& 0 <= i < entries.len()
    &&& is_markdown_path(entries[i].relative@)
    &&& !scan_pages(entries.take(i)).stopped
}

/// The last-modified page of a read is the newest counted page: its time is
/// the largest modification time among the counted pages, and it is one of
/// them; there is none exactly when no counted page has a time.
pub proof fn last_modified_is_newest(entries: Seq<PageEntry>)
    ensures
        match scan_pages(entries).last {
            Some((t, p)) => {
                &&& exists|i: int| counted_page(entries, i) && entry_modified(entries[i]) == Some(t) && entries[i].relative@ == p
                &&& forall|i: int| #[trigger] counted_page(entries, i) ==> (entry_modified(entries[i]) matches Some(u) ==> u <= t)
            },
            None => forall|i: int| #[trigger] counted_page(entries, i) ==> entry_modified(entries[i]) is None,
        },
    decreases entries.len(),
{
    if entries.len() > 0 {
        let d = entries.drop_last();
        let n = entries.len() - 1;
        last_modified_is_newest(d);
        assert(entries.take(n) =~= d);
        assert forall|i: int| 0 <= i < n implies (counted_page(entries, i) <==> counted_page(d, i)) by {
            assert(entries.take(i) =~= d.take(i));
            assert(d[i] == entries[i]);
        }
        let prev = scan_pages(d);
        let e = entries[n];
        assert(e == entries.last());
        match scan_pages(entries).last {
            Some((t, p)) => {
                if counted_page(entries, n) && entry_modified(e) == Some(t) && e.relative@ == p {
                } else {
                    let (t0, p0) = prev.last->0;
                    let i = choose|i: int| counted_page(d, i) && entry_modified(d[i]) == Some(t0) && d[i].relative@ == p0;
                    assert(d[i] == entries[i]);
                    assert(counted_page(entries, i));
                }
                assert forall|i: int| #[trigger] counted_page(entries, i) implies (entry_modified(entries[i]) matches Some(
                    u,
                ) ==> u <= t) by {
                    if i < n {
                        assert(counted_page(d, i));
                        assert(d[i] == entries[i]);
                    }
                }
            },
            None => {
                assert forall|i: int| #[trigger] counted_page(entries, i) implies entry_modified(entries[i]) is None by {
                    if i < n {
                        assert(counted_page(d, i));
                        assert(d[i] == entries[i]);
                    }
                }
            },
        }
    }
}

/// Pages counted per knowledge area.
pub struct AreaPageCount {
    pub name: &'static str,
    pub purpose: &'static str,
    pub page_count: usize,
}

/// The structure of a wiki, ready to be rendered.
pub struct WikiScan {
    pub page_count: usize,
    pub categories: Vec<String>,
    pub looks_like_wiki: bool,
    pub areas: Vec<AreaPageCount>,
    /// `AGENTS.md` body, truncated to `agents_head_limit` lines. `None` when
    /// the file is absent or was not asked for.
    pub agents_body: Option<String>,
    /// True when `AGENTS.md` was longer than `agents_head_limit` lines.
    pub agents_truncated: bool,
    /// `index.md` body, truncated to `index_head_limit` lines.
    pub index_body: Option<String>,
    /// True when `index.md` was longer than `index_head_limit` lines.
    pub index_truncated: bool,
    /// Last `n` recognised `## [...]` entries from `log.md`.
    pub log_body: Option<String>,
    pub last_modified: Option<i128>,
    pub last_modified_page: Option<String>,
    /// True when `page_count` hit the hard cap.
    pub truncated: bool,
}

/// The gathered facts of a walk, held by a scan in progress.
struct Walk {
    count: usize,
    categories: Vec<Vec<char>>,
    areas: Vec<usize>,
    has_agents: bool,
    has_index: bool,
    has_log: bool,
    last: Option<(i128, Vec<char>)>,
    stopped: bool,
}

spec fn walk_matches(w: Walk, st: ScanSpec) -> bool {
    &&& w.count == st.count
    &&& strictly_sorted(views(w.categories@))
    &&& views(w.categories@).to_set() == st.categories
    &&& w.areas@.len() == 4
    &&& st.areas.len() == 4
    &&& forall|i: int| 0 <= i < 4 ==> w.areas@[i] == #[trigger] st.areas[i]
    &&& w.has_agents == st.has_agents
    &&& w.has_index == st.has_index
    &&& w.has_log == st.has_log
    &&& match st.last {
        Some((t, p)) => w.last matches Some((wt, wp)) && wt == t && wp@ == p,
        None => w.last is None,
    }
    &&& w.stopped == st.stopped
}

proof fn lemma_scan_bounds(entries: Seq<PageEntry>)
    ensures
        scan_pages(entries).count <= entries.len(),
        scan_pages(entries).areas.len() == 4,
        forall|i: int| 0 <= i < 4 ==> #[trigger] scan_pages(entries).areas[i] <= scan_pages(entries).count,
    decreases entries.len(),
{
    if entries.len() > 0 {
        lemma_scan_bounds(entries.drop_last());
    }
}

fn is_markdown(path: &[char]) -> (r: bool)
    ensures
        r == is_markdown_path(path@),
{
    let mut k = path.len();
    assert(path@.take(k as int) =~= path@);
    assert(file_name_of(path@) + path@.skip(k as int) =~= file_name_of(path@));
    while k > 0 && path[k - 1] != '/'
        invariant
            k <= path@.len(),
            file_name_of(path@) == file_name_of(path@.take(k as int)) + path@.skip(k as int),
        decreases k,
    {
        proof {
            let t = path@.take(k as int);
            assert(t.drop_last() =~= path@.take(k - 1));
            assert(path@.skip(k - 1) =~= seq![t.last()] + path@.skip(k as int));
            assert(file_name_of(t) == file_name_of(path@.take(k - 1)).push(t.last()));
            assert(file_name_of(path@.take(k - 1)).push(t.last()) + path@.skip(k as int)
                =~= file_name_of(path@.take(k - 1)) + path@.skip(k - 1));
        }
        k = k - 1;
    }
    proof {
        if k == 0 {
            assert(path@.take(0).len() == 0);
        } else {
            assert(path@.take(k as int).last() == '/');
        }
        assert(file_name_of(path@) =~= path@.skip(k as int));
    }
    let n = path.len() - k;
    if n <= 3 {
        return false;
    }
    let r = path[path.len() - 3] == '.' && path[path.len() - 2] == 'm' && path[path.len() - 1] == 'd';
    proof {
        let name = file_name_of(path@);
        assert(name.len() == n);
        if r {
            assert(name.skip(name.len() - 3) =~= seq!['.', 'm', 'd']);
        }
        if name.skip(name.len() - 3) == seq!['.', 'm', 'd'] {
            assert(name.skip(name.len() - 3)[0] == path@[path@.len() - 3]);
            assert(name.skip(name.len() - 3)[1] == path@[path@.len() - 2]);
            assert(name.skip(name.len() - 3)[2] == path@[path@.len() - 1]);
        }
    }
    r
}

proof fn lemma_slash_at(s: Seq<char>, k: int)
    requires
        0 <= k <= s.len(),
        forall|j: int| 0 <= j < k ==> #[trigger] s[j] != '/',
        k == s.len() || s[k] == '/',
    ensures
        slash_at(s) == k,
    decreases k,
{
    if k > 0 {
        lemma_slash_at(s.drop_first(), k - 1);
    }
}

fn category(path: &[char]) -> (r: Option<Vec<char>>)
    ensures
        match category_of(path@) {
            Some(c) => r matches Some(v) && v@ == c,
            None => r is None,
        },
{
    let mut k: usize = 0;
    while k < path.len() && path[k] != '/'
        invariant
            k <= path@.len(),
            forall|j: int| 0 <= j < k ==> path@[j] != '/',
        decreases path@.len() - k,
    {
        k = k + 1;
    }
    proof {
        lemma_slash_at(path@, k as int);
    }
    if k < path.len() && k > 0 && !(k == 1 && path[0] == '.') {
        proof {
            assert(path@.take(k as int) != seq!['.']) by {
                if k == 1 {
                    assert(path@.take(1)[0] == path@[0]);
                } else {
                    assert(path@.take(k as int).len() != 1);
                }
            }
        }
        Some(slice_chars(path, 0, k))
    } else {
        proof {
            if k == 1 && path@[0] == '.' {
                assert(path@.take(1) =~= seq!['.']);
            }
        }
        None
    }
}

/// Folds one file into the walk.
fn walk_step(w: &mut Walk, e: &PageEntry, Ghost(st): Ghost<ScanSpec>)
    requires
        walk_matches(*old(w), st),
        st.count < usize::MAX,
        forall|i: int| 0 <= i < 4 ==> #[trigger] st.areas[i] <= st.count,
    ensures
        walk_matches(*final(w), scan_step(st, e.relative@, entry_modified(*e))),
{
    if w.stopped {
        return;
    }
    let path = chars_of(e.relative.as_str());
    if !is_markdown(path.as_slice()) {
        return;
    }
    w.count = w.count + 1;
    match e.modified {
        Some(t) => {
            let newer = match &w.last {
                Some((prev, _)) => *prev < t,
                None => true,
            };
            if newer {
                w.last = Some((t, path.clone()));
            }
        },
        None => {},
    }
    let ghost st1 = ScanSpec { count: st.count + 1, last: scan_step(st, e.relative@, entry_modified(*e)).last, ..st };
    if chars_equal_str(path.as_slice(), AGENTS_FILENAME) {
        w.has_agents = true;
        return;
    }
    if chars_equal_str(path.as_slice(), INDEX_FILENAME) {
        w.has_index = true;
        return;
    }
    if chars_equal_str(path.as_slice(), LOG_FILENAME) {
        w.has_log = true;
        return;
    }
    match category(path.as_slice()) {
        Some(c) => insert_sorted(&mut w.categories, c),
        None => {},
    }
    let area = knowledge_area_index(path.as_slice());
    match area {
        Some(i) => {
            let n = w.areas[i] + 1;
            w.areas.set(i, n);
        },
        None => {},
    }
    if w.count >= HARD_PAGE_CAP {
        w.stopped = true;
    }
    proof {
        let next = scan_step(st, e.relative@, entry_modified(*e));
        assert(views(w.categories@).to_set() == next.categories);
        assert forall|i: int| 0 <= i < 4 implies w.areas@[i] == #[trigger] next.areas[i] by {}
    }
}

/// Index of the knowledge area owning a relative path.
fn knowledge_area_index(path: &[char]) -> (r: Option<usize>)
    ensures
        match area_of(path@) {
            Some(i) => r == Some(i as usize),
            None => r is None,
        },
{
    let mut i: usize = 0;
    while i < AREA_COUNT
        invariant
            i <= AREA_COUNT,
            forall|j: int| 0 <= j < i ==> !in_area(path@, #[trigger] area_name(j)),
        decreases AREA_COUNT - i,
    {
        let area = knowledge_area(i);
        if path_in_area(path, area.0) {
            return Some(i);
        }
        i = i + 1;
    }
    None
}


pub open spec fn opt_view(o: Option<String>) -> Option<Seq<char>> {
    match o {
        Some(s) => Some(s@),
        None => None,
    }
}

/// A root document's body and truncation flag: absent unless asked for and
/// present; empty when it could not be read; otherwise its head.
pub open spec fn root_body(wanted: bool, present: bool, content: Option<Seq<char>>, limit: nat) -> (
    Option<Seq<char>>,
    bool,
) {
    if wanted && present {
        match content {
            Some(c) => (Some(head_of(c, limit).0), head_of(c, limit).1),
            None => (Some(seq![]), false),
        }
    } else {
        (None, false)
    }
}

/// The log body: the last `n` entries, when the log is present, readable and
/// asked for.
pub open spec fn log_body_of(present: bool, content: Option<Seq<char>>, n: nat) -> Option<Seq<char>> {
    if present && n > 0 {
        match content {
            Some(t) => Some(last_log_entries(t, n)),
            None => None,
        }
    } else {
        None
    }
}

/// `scan` is the structure of the wiki walked as `entries`, with the root
/// documents `docs` and the given section choices and line limits.
pub open spec fn is_scan_of(
    scan: WikiScan,
    entries: Seq<PageEntry>,
    docs: RootDocs,
    include_agents: bool,
    include_index: bool,
    log_last_n: nat,
    agents_head_limit: nat,
    index_head_limit: nat,
) -> bool {
    let st = scan_pages(entries);
    &&& scan.page_count == st.count
    &&& strictly_sorted(str_views(scan.categories@))
    &&& str_views(scan.categories@).to_set() == st.categories
    &&& scan.looks_like_wiki == (st.has_agents || st.has_index)
    &&& scan.areas@.len() == 4
    &&& forall|i: int|
        0 <= i < 4 ==> {
            &&& (#[trigger] scan.areas@[i]).name@ == area_name(i)
            &&& scan.areas@[i].purpose@ == area_purpose(i)
            &&& scan.areas@[i].page_count == st.areas[i]
        }
    &&& (opt_view(scan.agents_body), scan.agents_truncated) == root_body(
        include_agents,
        st.has_agents,
        opt_view(docs.agents),
        agents_head_limit,
    )
    &&& (opt_view(scan.index_body), scan.index_truncated) == root_body(
        include_index,
        st.has_index,
        opt_view(docs.index),
        index_head_limit,
    )
    &&& opt_view(scan.log_body) == log_body_of(st.has_log, opt_view(docs.log), log_last_n)
    &&& match st.last {
        Some((t, p)) => scan.last_modified == Some(t as i128) && (scan.last_modified_page matches Some(
            page,
        ) && page@ == p),
        None => scan.last_modified is None && scan.last_modified_page is None,
    }
    &&& scan.truncated == (st.count >= HARD_PAGE_CAP)
}

fn root_document(wanted: bool, present: bool, content: &Option<String>, limit: usize) -> (r: (
    Option<String>,
    bool,
))
    ensures
        (opt_view(r.0), r.1) == root_body(wanted, present, opt_view(*content), limit as nat),
{
    if wanted && present {
        match content {
            Some(c) => {
                let (body, cut) = head_lines(c.as_str(), limit);
                (Some(body), cut)
            },
            None => (Some(String::new()), false),
        }
    } else {
        (None, false)
    }
}

/// The structure of a wiki from its walked files and root documents.
pub fn scan_wiki(
    entries: &Vec<PageEntry>,
    docs: &RootDocs,
    include_agents: bool,
    include_index: bool,
    log_last_n: usize,
    agents_head_limit: usize,
    index_head_limit: usize,
) -> (r: WikiScan)
    ensures
        is_scan_of(
            r,
            entries@,
            *docs,
            include_agents,
            include_index,
            log_last_n as nat,
            agents_head_limit as nat,
            index_head_limit as nat,
        ),
{
    let mut w = Walk {
        count: 0,
        categories: Vec::new(),
        areas: vec![0, 0, 0, 0],
        has_agents: false,
        has_index: false,
        has_log: false,
        last: None,
        stopped: false,
    };
    proof {
        assert(entries@.take(0) =~= Seq::<PageEntry>::empty());
        assert(views(w.categories@).to_set() =~= Set::<Seq<char>>::empty());
    }
    let mut i: usize = 0;
    while i < entries.len()
        invariant
            i <= entries@.len(),
            walk_matches(w, scan_pages(entries@.take(i as int))),
        decreases entries@.len() - i,
    {
        proof {
            lemma_scan_bounds(entries@.take(i as int));
            assert(entries@.take(i + 1).drop_last() =~= entries@.take(i as int));
        }
        walk_step(&mut w, &entries[i], Ghost(scan_pages(entries@.take(i as int))));
        i = i + 1;
    }
    assert(entries@.take(entries@.len() as int) =~= entries@);
    let ghost st = scan_pages(entries@);
    let mut areas: Vec<AreaPageCount> = Vec::new();
    let mut a: usize = 0;
    while a < AREA_COUNT
        invariant
            a <= AREA_COUNT,
            w.areas@.len() == 4,
            areas@.len() == a,
            forall|j: int|
                0 <= j < a ==> {
                    &&& (#[trigger] areas@[j]).name@ == area_name(j)
                    &&& areas@[j].purpose@ == area_purpose(j)
                    &&& areas@[j].page_count == w.areas@[j]
                },
        decreases AREA_COUNT - a,
    {
        let (name, purpose) = knowledge_area(a);
        areas.push(AreaPageCount { name, purpose, page_count: w.areas[a] });
        a = a + 1;
    }
    let (agents_body, agents_truncated) = root_document(
        include_agents,
        w.has_agents,
        &docs.agents,
        agents_head_limit,
    );
    let (index_body, index_truncated) = root_document(
        include_index,
        w.has_index,
        &docs.index,
        index_head_limit,
    );
    let log_body = if w.has_log && log_last_n > 0 {
        match &docs.log {
            Some(t) => Some(extract_last_log_entries(t.as_str(), log_last_n)),
            None => None,
        }
    } else {
        None
    };
    let (last_modified, last_modified_page) = match w.last {
        Some((t, p)) => (Some(t), Some(string_of(p.as_slice()))),
        None => (None, None),
    };
    let categories = strings_of(&w.categories);
    WikiScan {
        page_count: w.count,
        categories,
        looks_like_wiki: w.has_agents || w.has_index,
        areas,
        agents_body,
        agents_truncated,
        index_body,
        index_truncated,
        log_body,
        last_modified,
        last_modified_page,
        truncated: w.count >= HARD_PAGE_CAP,
    }
}


// ---------------------------------------------------------------------------
// The overview text
// ---------------------------------------------------------------------------
/// `  name: N page(s) — purpose` lines, one per area.
pub open spec fn areas_text(areas: Seq<AreaPageCount>) -> Seq<char>
    decreases areas.len(),
{
    if areas.len() == 0 {
        seq![]
    } else {
        let a = areas.last();
        areas_text(areas.drop_last()) + "  "@ + a.name@ + ": "@ + decimal(a.page_count as nat)
            + " page(s) — "@ + a.purpose@ + "\n"@
    }
}

/// Whole seconds since the Unix epoch of a time in nanoseconds, when it is
/// not before the epoch.
pub open spec fn epoch_secs(nanos: int) -> Option<nat> {
    if nanos >= 0 && nanos / 1_000_000_000 <= u64::MAX {
        Some((nanos / 1_000_000_000) as nat)
    } else {
        None
    }
}

pub open spec fn last_modified_text(scan: WikiScan) -> Seq<char> {
    match (scan.last_modified, scan.last_modified_page) {
        (Some(t), Some(page)) => match epoch_secs(t as int) {
            Some(secs) => "Last modified: "@ + iso8601(secs) + " ("@ + page@ + ")\n"@,
            None => seq![],
        },
        _ => seq![],
    }
}

/// The first two lines: location, page count and categories.
pub open spec fn counts_text(root: Seq<char>, scan: WikiScan) -> Seq<char> {
    "== Wiki at "@ + root + " ==\n"@ + "Pages: "@ + decimal(scan.page_count as nat)
        + "    Categories: "@ + decimal(scan.categories@.len()) + (if scan.categories@.len() > 0 {
        " ("@ + join(str_views(scan.categories@), ", "@) + ")"@
    } else {
        seq![]
    }) + "\n"@
}

/// The header: location, counts, areas, last modification and the plain-tree
/// note.
pub open spec fn header_text(root: Seq<char>, scan: WikiScan, strict: bool) -> Seq<char> {
    counts_text(root, scan) + "Knowledge areas:\n"@ + areas_text(scan.areas@) + last_modified_text(
        scan,
    ) + (if strict && !scan.looks_like_wiki {
        "Note: this directory does not contain AGENTS.md or index.md; treating as a plain markdown tree.\n"@
    } else {
        seq![]
    }) + "\n"@
}

pub open spec fn agents_text(scan: WikiScan, limit: nat) -> Seq<char> {
    "== Global context (AGENTS.md) ==\n"@ + match scan.agents_body {
        Some(body) => (if body@.len() == 0 {
            "(AGENTS.md is empty.)\n"@
        } else {
            body@
        }) + (if scan.agents_truncated {
            "\n(Partial: AGENTS.md exceeded agents_head_limit="@ + decimal(limit)
                + ". Raise the limit or open the file directly for the rest.)\n"@
        } else {
            seq![]
        }),
        None => "(AGENTS.md not present — no global context is available. Existing index.md-based wikis remain supported; run `wiki init` to add the standard structure.)\n"@,
    } + "\n"@
}

pub open spec fn index_text(scan: WikiScan, limit: nat) -> Seq<char> {
    "== Index ==\n"@ + match scan.index_body {
        Some(body) => (if body@.len() == 0 {
            "(index.md is empty.)\n"@
        } else {
            body@
        }) + (if scan.index_truncated {
            "\n(Partial: index.md exceeded index_head_limit="@ + decimal(limit)
                + ". Raise the limit or open the file directly for the rest.)\n"@
        } else {
            seq![]
        }),
        None => "(index.md not present — the catalog has not been created yet.)\n"@,
    } + "\n"@
}

pub open spec fn log_text(scan: WikiScan, n: nat) -> Seq<char> {
    "== Recent log entries (last "@ + decimal(n) + ") ==\n"@ + match scan.log_body {
        Some(body) => if body@.len() > 0 {
            body@
        } else {
            "(log.md is empty.)\n"@
        },
        None => "(log.md not present — no chronology recorded yet.)\n"@,
    } + "\n"@
}

pub open spec fn footer_text(scan: WikiScan) -> Seq<char> {
    if scan.truncated {
        "\n(Partial: wiki has more than 5000 .md pages; counts reflect the first 5000 discovered. Move older pages to an archive directory or narrow the search.)\n"@
    } else {
        "\n(Complete: "@ + decimal(scan.page_count as nat) + " page(s) indexed.)\n"@
    }
}

/// The overview of a scanned wiki: header, then the global context, the
/// index and the recent log as asked for, then the completeness footer.
pub open spec fn overview_text(
    root: Seq<char>,
    scan: WikiScan,
    strict: bool,
    include_agents: bool,
    include_index: bool,
    log_last: nat,
    agents_limit: nat,
    index_limit: nat,
) -> Seq<char> {
    header_text(root, scan, strict) + (if include_agents {
        agents_text(scan, agents_limit)
    } else {
        seq![]
    }) + (if include_index {
        index_text(scan, index_limit)
    } else {
        seq![]
    }) + (if log_last > 0 {
        log_text(scan, log_last)
    } else {
        seq![]
    }) + footer_text(scan)
}

fn push_areas(out: &mut String, areas: &Vec<AreaPageCount>)
    ensures
        final(out)@ == old(out)@ + areas_text(areas@),
{
    let mut i: usize = 0;
    while i < areas.len()
        invariant
            i <= areas@.len(),
            out@ == old(out)@ + areas_text(areas@.take(i as int)),
        decreases areas@.len() - i,
    {
        let a = &areas[i];
        out.append("  ");
        out.append(a.name);
        out.append(": ");
        push_decimal(out, a.page_count as u64);
        out.append(" page(s) — ");
        out.append(a.purpose);
        out.append("\n");
        proof {
            assert(areas@.take(i + 1).drop_last() =~= areas@.take(i as int));
            assert(out@ =~= old(out)@ + areas_text(areas@.take(i + 1)));
        }
        i = i + 1;
    }
    assert(areas@.take(areas@.len() as int) =~= areas@);
}

fn push_last_modified(out: &mut String, scan: &WikiScan)
    ensures
        final(out)@ == old(out)@ + last_modified_text(*scan),
{
    match (&scan.last_modified, &scan.last_modified_page) {
        (Some(t), Some(page)) => {
            if *t >= 0 && *t / 1_000_000_000 <= u64::MAX as i128 {
                let secs = (*t / 1_000_000_000) as u64;
                match format_iso8601_short(secs) {
                    Some(human) => {
                        out.append("Last modified: ");
                        out.append(human.as_str());
                        out.append(" (");
                        out.append(page.as_str());
                        out.append(")\n");
                    },
                    None => {},
                }
            }
        },
        _ => {},
    }
    proof {
        assert(final(out)@ =~= old(out)@ + last_modified_text(*scan));
    }
}

fn push_counts(out: &mut String, root: &str, scan: &WikiScan)
    ensures
        final(out)@ == old(out)@ + counts_text(root@, *scan),
{
    out.append("== Wiki at ");
    out.append(root);
    out.append(" ==\n");
    out.append("Pages: ");
    push_decimal(out, scan.page_count as u64);
    out.append("    Categories: ");
    push_decimal(out, scan.categories.len() as u64);
    if scan.categories.len() > 0 {
        out.append(" (");
        push_joined_strings(out, &scan.categories, ", ");
        out.append(")");
    }
    out.append("\n");
    proof {
        assert(final(out)@ =~= old(out)@ + counts_text(root@, *scan));
    }
}

fn push_header(out: &mut String, root: &str, scan: &WikiScan, strict: bool)
    ensures
        final(out)@ == old(out)@ + header_text(root@, *scan, strict),
{
    push_counts(out, root, scan);
    out.append("Knowledge areas:\n");
    push_areas(out, &scan.areas);
    push_last_modified(out, scan);
    if strict && !scan.looks_like_wiki {
        out.append(
            "Note: this directory does not contain AGENTS.md or index.md; treating as a plain markdown tree.\n",
        );
    }
    out.append("\n");
    proof {
        assert(final(out)@ =~= old(out)@ + header_text(root@, *scan, strict));
    }
}

fn push_agents(out: &mut String, scan: &WikiScan, limit: usize)
    ensures
        final(out)@ == old(out)@ + agents_text(*scan, limit as nat),
{
    out.append("== Global context (AGENTS.md) ==\n");
    match &scan.agents_body {
        Some(body) => {
            if body.as_str().unicode_len() == 0 {
                out.append("(AGENTS.md is empty.)\n");
            } else {
                out.append(body.as_str());
            }
            if scan.agents_truncated {
                out.append("\n(Partial: AGENTS.md exceeded agents_head_limit=");
                push_decimal(out, limit as u64);
                out.append(". Raise the limit or open the file directly for the rest.)\n");
            }
        },
        None => {
            out.append(
                "(AGENTS.md not present — no global context is available. Existing index.md-based wikis remain supported; run `wiki init` to add the standard structure.)\n",
            );
        },
    }
    out.append("\n");
    proof {
        assert(final(out)@ =~= old(out)@ + agents_text(*scan, limit as nat));
    }
}

fn push_index(out: &mut String, scan: &WikiScan, limit: usize)
    ensures
        final(out)@ == old(out)@ + index_text(*scan, limit as nat),
{
    out.append("== Index ==\n");
    match &scan.index_body {
        Some(body) => {
            if body.as_str().unicode_len() == 0 {
                out.append("(index.md is empty.)\n");
            } else {
                out.append(body.as_str());
            }
            if scan.index_truncated {
                out.append("\n(Partial: index.md exceeded index_head_limit=");
                push_decimal(out, limit as u64);
                out.append(". Raise the limit or open the file directly for the rest.)\n");
            }
        },
        None => {
            out.append("(index.md not present — the catalog has not been created yet.)\n");
        },
    }
    out.append("\n");
    proof {
        assert(final(out)@ =~= old(out)@ + index_text(*scan, limit as nat));
    }
}

fn push_log(out: &mut String, scan: &WikiScan, n: usize)
    ensures
        final(out)@ == old(out)@ + log_text(*scan, n as nat),
{
    out.append("== Recent log entries (last ");
    push_decimal(out, n as u64);
    out.append(") ==\n");
    match &scan.log_body {
        Some(body) => {
            if body.as_str().unicode_len() > 0 {
                out.append(body.as_str());
            } else {
                out.append("(log.md is empty.)\n");
            }
        },
        None => {
            out.append("(log.md not present — no chronology recorded yet.)\n");
        },
    }
    out.append("\n");
    proof {
        assert(final(out)@ =~= old(out)@ + log_text(*scan, n as nat));
    }
}

fn push_footer(out: &mut String, scan: &WikiScan)
    ensures
        final(out)@ == old(out)@ + footer_text(*scan),
{
    if scan.truncated {
        out.append(
            "\n(Partial: wiki has more than 5000 .md pages; counts reflect the first 5000 discovered. Move older pages to an archive directory or narrow the search.)\n",
        );
    } else {
        out.append("\n(Complete: ");
        push_decimal(out, scan.page_count as u64);
        out.append(" page(s) indexed.)\n");
    }
    proof {
        assert(final(out)@ =~= old(out)@ + footer_text(*scan));
    }
}

/// Renders the overview of a scanned wiki whose root displays as `root`.
pub fn render_overview(
    root: &str,
    scan: &WikiScan,
    strict: bool,
    include_agents: bool,
    include_index: bool,
    log_last: usize,
    agents_limit: usize,
    index_limit: usize,
) -> (r: String)
    ensures
        r@ == overview_text(
            root@,
            *scan,
            strict,
            include_agents,
            include_index,
            log_last as nat,
            agents_limit as nat,
            index_limit as nat,
        ),
{
    let mut out = String::new();
    push_header(&mut out, root, scan, strict);
    let ghost h = out@;
    if include_agents {
        push_agents(&mut out, scan, agents_limit);
    }
    let ghost a = out@;
    if include_index {
        push_index(&mut out, scan, index_limit);
    }
    let ghost x = out@;
    if log_last > 0 {
        push_log(&mut out, scan, log_last);
    }
    push_footer(&mut out, scan);
    proof {
        assert(out@ =~= overview_text(
            root@,
            *scan,
            strict,
            include_agents,
            include_index,
            log_last as nat,
            agents_limit as nat,
            index_limit as nat,
        ));
    }
    out
}


/// The root a read looks at: the given path or `docs`.
pub open spec fn requested_root(options: ReadOptions) -> Seq<char> {
    match options.path {
        Some(p) => p@,
        None => DEFAULT_WIKI_ROOT@,
    }
}

/// The number of log entries a read shows.
pub open spec fn log_last_of(options: ReadOptions) -> nat {
    if options.include_log_last <= HARD_LOG_LAST {
        options.include_log_last as nat
    } else {
        HARD_LOG_LAST as nat
    }
}

/// A line limit taken between 1 and the hard ceiling.
pub open spec fn head_limit_of(limit: usize) -> nat {
    clamp(limit as int, 1, HARD_INDEX_HEAD_LIMIT as int) as nat
}

/// `text` is the overview of the wiki walked as `entries` with root documents
/// `docs`, read with `options` at the root `root`.
pub open spec fn is_overview_of(
    text: Seq<char>,
    options: ReadOptions,
    root: Seq<char>,
    entries: Seq<PageEntry>,
    docs: RootDocs,
) -> bool {
    exists|scan: WikiScan|
        #[trigger] is_scan_of(
            scan,
            entries,
            docs,
            options.include_agents,
            options.include_index,
            log_last_of(options),
            head_limit_of(options.agents_head_limit),
            head_limit_of(options.index_head_limit),
        ) && text == overview_text(
            display_form(root),
            scan,
            options.strict,
            options.include_agents,
            options.include_index,
            log_last_of(options),
            head_limit_of(options.agents_head_limit),
            head_limit_of(options.index_head_limit),
        )
}

/// Reads a wiki and returns the structured overview as plain text. The
/// filesystem reports whether the root exists and is a directory, hands over
/// the walked files and the root documents; the root is checked first.
pub fn read(
    options: &ReadOptions,
    exists: bool,
    is_dir: bool,
    entries: &Vec<PageEntry>,
    docs: &RootDocs,
) -> (r: Result<String, ReadError>)
    ensures
        root_error("read"@, requested_root(*options), exists, is_dir) matches Some(m) ==> (r matches Err(
            ReadError::Invalid(e),
        ) && e@ == m),
        root_error("read"@, requested_root(*options), exists, is_dir) is None ==> (r matches Ok(text)
            && is_overview_of(text@, *options, requested_root(*options), entries@, *docs)),
{
    let input = match &options.path {
        Some(p) => Some(p.as_str()),
        None => None,
    };
    assert(match input {
        Some(p) => p@,
        None => DEFAULT_WIKI_ROOT@,
    } == match &options.path {
        Some(p) => p@,
        None => DEFAULT_WIKI_ROOT@,
    });
    let root = match resolve_root(input, exists, is_dir) {
        Ok(root) => root,
        Err(e) => {
            return Err(e);
        },
    };
    let log_last = options.resolve_log_last();
    let index_limit = options.resolve_index_head();
    let agents_limit = options.resolve_agents_head();
    let scan = scan_wiki(
        entries,
        docs,
        options.include_agents,
        options.include_index,
        log_last,
        agents_limit,
        index_limit,
    );
    let shown = display_path(root.as_str());
    let text = render_overview(
        shown.as_str(),
        &scan,
        options.strict,
        options.include_agents,
        options.include_index,
        log_last,
        agents_limit,
        index_limit,
    );
    proof {
        assert(root@ == requested_root(*options));
        assert(is_scan_of(
            scan,
            entries@,
            *docs,
            options.include_agents,
            options.include_index,
            log_last_of(*options),
            head_limit_of(options.agents_head_limit),
            head_limit_of(options.index_head_limit),
        ));
    }
    Ok(text)
}

} // verus!
