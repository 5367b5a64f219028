//! Change identifiers, change front matter and the SDD response envelope.

use vstd::prelude::*;
use crate::sdd_verify::SddError;
use crate::text::{chars_of, has_prefix, slice_chars, string_of, trim, trim_chars};

verus! {

/// Bytes of a character in UTF-8.
pub open spec fn utf8_width(c: char) -> nat {
    let u = c as u32;
    if u < 0x80 {
        1
    } else if u < 0x800 {
        2
    } else if u < 0x10000 {
        3
    } else {
        4
    }
}

/// Length in UTF-8 bytes (`str::len`).
pub open spec fn utf8_len(s: Seq<char>) -> nat
    decreases s.len(),
{
    if s.len() == 0 {
        0
    } else {
        utf8_len(s.drop_last()) + utf8_width(s.last())
    }
}

/// The UTF-8 length of `s`, saturated at `cap + 1`.
fn utf8_len_capped(s: &str, cap: usize) -> (r: usize)
    requires
        cap < usize::MAX - 4,
    ensures
        r <= cap ==> r == utf8_len(s@),
        r > cap <==> utf8_len(s@) > cap,
{
    let v = chars_of(s);
    let mut n: usize = 0;
    let mut i: usize = 0;
    assert(v@.take(0) =~= Seq::<char>::empty());
    while i < v.len()
        invariant
            i <= v@.len(),
            v@ == s@,
            cap < usize::MAX - 4,
            n <= cap ==> n == utf8_len(v@.take(i as int)),
            n > cap <==> utf8_len(v@.take(i as int)) > cap,
            n <= cap + 4,
        decreases v@.len() - i,
    {
        let u = v[i] as u32;
        let w: usize = if u < 0x80 {
            1
        } else if u < 0x800 {
            2
        } else if u < 0x10000 {
            3
        } else {
            4
        };
        proof {
            assert(v@.take(i + 1).drop_last() =~= v@.take(i as int));
            assert(v@.take(i + 1).last() == v@[i as int]);
        }
        if n <= cap {
            n = n + w;
        }
        i = i + 1;
    }
    assert(v@.take(v@.len() as int) =~= v@);
    n
}

/// A character allowed in change identifiers.
pub open spec fn change_id_char(c: char) -> bool {
    ('a' <= c <= 'z') || ('0' <= c <= '9') || c == '-' || c == '_' || c == '.'
}

/// Why a change identifier is refused, if it is.
pub open spec fn change_id_error(value: Seq<char>) -> Option<Seq<char>> {
    if value.len() == 0 || utf8_len(value) > 80 || value == "."@ || value == ".."@ {
        Some("SDD_INVALID_CHANGE_ID"@)
    } else if exists|i: int| 0 <= i < value.len() && !change_id_char(#[trigger] value[i]) {
        Some("SDD_INVALID_CHANGE_ID: only lowercase letters, digits, '-', '_' and '.' are allowed."@)
    } else {
        None
    }
}

/// Change identifiers are 1 to 80 bytes of lowercase letters, digits, `-`,
/// `_` and `.`, and not `.` or `..`.
pub fn validate_change_id(value: &str) -> (r: Result<(), SddError>)
    ensures
        match change_id_error(value@) {
            Some(m) => r matches Err(SddError::Invalid(e)) && e@ == m,
            None => r is Ok,
        },
{
    let v = chars_of(value);
    let bytes = utf8_len_capped(value, 80);
    if v.len() == 0 || bytes > 80 || crate::text::chars_equal_str(v.as_slice(), ".")
        || crate::text::chars_equal_str(v.as_slice(), "..") {
        return Err(SddError::Invalid(String::from_str("SDD_INVALID_CHANGE_ID")));
    }
    let mut i: usize = 0;
    while i < v.len()
        invariant
            i <= v@.len(),
            v@ == value@,
            !(value@.len() == 0 || utf8_len(value@) > 80 || value@ == "."@ || value@ == ".."@),
            forall|j: int| 0 <= j < i ==> change_id_char(#[trigger] v@[j]),
        decreases v@.len() - i,
    {
        let c = v[i];
        if !((c >= 'a' && c <= 'z') || (c >= '0' && c <= '9') || c == '-' || c == '_' || c == '.') {
            assert(!change_id_char(v@[i as int]));
            return Err(
                SddError::Invalid(
                    String::from_str(
                        "SDD_INVALID_CHANGE_ID: only lowercase letters, digits, '-', '_' and '.' are allowed.",
                    ),
                ),
            );
        }
        i = i + 1;
    }
    Ok(())
}

/// `needle` occurs in `hay` at `i`.
pub open spec fn occurs_at(hay: Seq<char>, needle: Seq<char>, i: int) -> bool {
    0 <= i && i + needle.len() <= hay.len() && hay.subrange(i, i + needle.len()) == needle
}

/// The first occurrence of `needle` in `hay` (`str::find`).
#[verifier::opaque]
pub open spec fn find_first(hay: Seq<char>, needle: Seq<char>) -> Option<int> {
    if exists|i: int| occurs_at(hay, needle, i) {
        Some(choose|i: int| occurs_at(hay, needle, i) && forall|j: int| 0 <= j < i ==> !occurs_at(hay, needle, j))
    } else {
        None
    }
}

/// The first occurrence of `needle` in `hay`.
pub fn find_chars(hay: &[char], needle: &[char]) -> (r: Option<usize>)
    ensures
        match find_first(hay@, needle@) {
            Some(i) => r == Some(i as usize),
            None => r is None,
        },
        r matches Some(i) ==> occurs_at(hay@, needle@, i as int) && find_first(hay@, needle@) == Some(i as int),
{
    let mut found: Option<usize> = None;
    if needle.len() <= hay.len() {
        let mut i: usize = 0;
        while i <= hay.len() - needle.len()
            invariant_except_break
                found is None,
                forall|j: int| 0 <= j < i ==> !occurs_at(hay@, needle@, j),
            invariant
                needle@.len() <= hay@.len(),
                i <= hay@.len() - needle@.len() + 1,
            ensures
                (found matches Some(k) && occurs_at(hay@, needle@, k as int) && forall|j: int| 0 <= j < k ==> !occurs_at(hay@, needle@, j))
                    || (found is None && forall|j: int| 0 <= j <= hay@.len() - needle@.len() ==> !occurs_at(hay@, needle@, j)),
            decreases hay@.len() - needle@.len() + 1 - i,
        {
            let rest = slice_chars(hay, i, hay.len());
            assert(rest@.take(needle@.len() as int) =~= hay@.subrange(i as int, i + needle@.len()));
            if crate::text::starts_with(rest.as_slice(), needle) {
                found = Some(i);
                break;
            }
            if i == hay.len() - needle.len() {
                break;
            }
            i = i + 1;
        }
    }
    proof {
        reveal(find_first);
        match found {
            Some(k) => {
                let c = choose|c: int| occurs_at(hay@, needle@, c) && forall|j: int| 0 <= j < c ==> !occurs_at(hay@, needle@, j);
                assert(!(c < k));
                assert(!(k < c));
            },
            None => {
                assert forall|j: int| !occurs_at(hay@, needle@, j) by {
                    if j > hay@.len() - needle@.len() {
                    }
                }
            },
        }
    }
    found
}

/// The front matter and body of a change document, or why it has none.
pub open spec fn split_front(text: Seq<char>) -> Result<(Seq<char>, Seq<char>), Seq<char>> {
    if !has_prefix(text, "---\n"@) {
        Err("SDD_INVALID_MARKDOWN: missing front matter."@)
    } else {
        split_closing(text.skip(4))
    }
}

/// The text after the opening marker cut at the closing marker.
pub open spec fn split_closing(content: Seq<char>) -> Result<(Seq<char>, Seq<char>), Seq<char>> {
    match find_first(content, "\n---"@) {
        None => Err("SDD_INVALID_MARKDOWN: unterminated front matter."@),
        Some(end) => {
            let rest = content.skip(end + 4);
            Ok((
                content.take(end),
                if has_prefix(rest, "\n"@) {
                    rest.skip(1)
                } else {
                    rest
                },
            ))
        },
    }
}

/// The body after the closing marker: one leading newline dropped.
fn body_after(rest: &[char]) -> (r: String)
    ensures
        r@ == if has_prefix(rest@, "\n"@) {
            rest@.skip(1)
        } else {
            rest@
        },
{
    proof {
        reveal_strlit("\n");
        assert("\n"@ =~= seq!['\n']);
    }
    if rest.len() > 0 && rest[0] == '\n' {
        assert(rest@.take(1) =~= seq!['\n']);
        let r = string_of(slice_chars(rest, 1, rest.len()).as_slice());
        assert(r@ =~= rest@.skip(1));
        r
    } else {
        assert(!has_prefix(rest@, "\n"@)) by {
            if rest@.len() > 0 {
                assert(rest@.take(1)[0] == rest@[0]);
            }
        }
        string_of(rest)
    }
}

fn split_at_closing(content: &[char]) -> (r: Result<(String, String), SddError>)
    ensures
        match split_closing(content@) {
            Ok((front, body)) => r matches Ok((f, b)) && f@ == front && b@ == body,
            Err(m) => r matches Err(SddError::Invalid(e)) && e@ == m,
        },
{
    let close = chars_of("\n---");
    proof {
        reveal_strlit("\n---");
    }
    assert(close@.len() == 4);
    match find_chars(content, close.as_slice()) {
        None => Err(SddError::Invalid(String::from_str("SDD_INVALID_MARKDOWN: unterminated front matter."))),
        Some(end) => {
            assert(occurs_at(content@, close@, end as int));
            assert(content@.len() == content.len());
            assert(end + 4 <= content.len());
            assert(find_first(content@, "\n---"@) == Some(end as int));
            let front = string_of(slice_chars(content, 0, end).as_slice());
            let rest = slice_chars(content, end + 4, content.len());
            assert(rest@ =~= content@.skip(end + 4));
            let body = body_after(rest.as_slice());
            assert(front@ =~= content@.take(end as int));
            Ok((front, body))
        },
    }
}

/// Splits `---\n<front>\n---[\n]<body>` into front matter and body.
pub fn split_frontmatter(text: &str) -> (r: Result<(String, String), SddError>)
    ensures
        match split_front(text@) {
            Ok((front, body)) => r matches Ok((f, b)) && f@ == front && b@ == body,
            Err(m) => r matches Err(SddError::Invalid(e)) && e@ == m,
        },
{
    let v = chars_of(text);
    let open = chars_of("---\n");
    proof {
        reveal_strlit("---\n");
    }
    if !crate::text::starts_with(v.as_slice(), open.as_slice()) {
        return Err(SddError::Invalid(String::from_str("SDD_INVALID_MARKDOWN: missing front matter.")));
    }
    let content = slice_chars(v.as_slice(), 4, v.len());
    assert(content@ =~= text@.skip(4));
    split_at_closing(content.as_slice())
}

/// The `code` and `message` of an SDD error message: `SDD_*: detail` splits
/// at its first colon, anything else is `SDD_ERROR` with the whole text.
pub open spec fn error_parts_of(text: Seq<char>) -> (Seq<char>, Seq<char>) {
    let k = crate::sdd_parse::char_at(text, ':');
    if k < text.len() && has_prefix(text.take(k as int), "SDD_"@) {
        (trim(text.take(k as int)), trim(text.skip(k + 1 as int)))
    } else {
        ("SDD_ERROR"@, text)
    }
}

/// Splits an error message into its code and message.
pub fn error_parts(text: &str) -> (r: (String, String))
    ensures
        (r.0@, r.1@) == error_parts_of(text@),
{
    let v = chars_of(text);
    let k = crate::sdd_parse::find_char(v.as_slice(), ':');
    if k < v.len() {
        let code = slice_chars(v.as_slice(), 0, k);
        let prefix = chars_of("SDD_");
        if crate::text::starts_with(code.as_slice(), prefix.as_slice()) {
            let rest = slice_chars(v.as_slice(), k + 1, v.len());
            assert(code@ =~= text@.take(k as int));
            assert(rest@ =~= text@.skip(k + 1));
            return (
                string_of(trim_chars(code.as_slice()).as_slice()),
                string_of(trim_chars(rest.as_slice()).as_slice()),
            );
        }
        assert(code@ =~= text@.take(k as int));
    }
    (String::from_str("SDD_ERROR"), String::from_str(text))
}

// ---------------------------------------------------------------------------
// The response envelope
// ---------------------------------------------------------------------------
pub const PROTOCOL_VERSION: &'static str = "wiki.sdd/v1";

/// A change as listed in responses.
pub struct ChangeSummary {
    pub id: String,
    pub title: String,
    pub status: String,
    pub phase: String,
    pub path: String,
}

/// What the Agent has to do next.
pub struct ActionRequired {
    pub kind: String,
    pub path: String,
    pub instructions: Vec<String>,
}

/// A task as reported in responses.
pub struct TaskSummary {
    pub id: String,
    pub title: String,
    pub status: String,
    pub depends_on: Vec<String>,
    pub files: Vec<String>,
    pub requirement_refs: Vec<String>,
    pub acceptance_refs: Vec<String>,
}

/// A directory move.
pub struct MoveSummary {
    pub from: String,
    pub to: String,
}

/// The counts of a verification.
pub struct VerificationSummary {
    pub result: String,
    pub checks: usize,
    pub passed: usize,
    pub failed: usize,
}

/// The error of a failed command.
pub struct SddErrorPayload {
    pub code: String,
    pub message: String,
}

/// The envelope every `wiki sdd` command answers with.
pub struct SddResponse {
    pub schema_version: &'static str,
    pub ok: bool,
    pub command: String,
    pub change: Option<ChangeSummary>,
    pub changes: Option<Vec<ChangeSummary>>,
    pub action_required: Option<ActionRequired>,
    pub task: Option<TaskSummary>,
    pub verification: Option<VerificationSummary>,
    pub moved: Option<MoveSummary>,
    /// Artifact name and path pairs, sorted by name.
    pub artifacts: Vec<(String, String)>,
    pub next: Vec<String>,
    pub error: Option<SddErrorPayload>,
}

/// `r` is a successful response of `command` with nothing else filled in.
pub open spec fn is_bare_response(r: SddResponse, command: Seq<char>) -> bool {
    &&& r.schema_version@ == PROTOCOL_VERSION@
    &&& r.command@ == command
    &&& r.change is None
    &&& r.changes is None
    &&& r.action_required is None
    &&& r.task is None
    &&& r.verification is None
    &&& r.moved is None
    &&& r.artifacts@.len() == 0
    &&& r.next@.len() == 0
}

impl SddResponse {
    /// An empty successful response of `command`.
    pub fn success(command: &str) -> (r: Self)
        ensures
            is_bare_response(r, command@),
            r.ok,
            r.error is None,
    {
        SddResponse {
            schema_version: PROTOCOL_VERSION,
            ok: true,
            command: String::from_str(command),
            change: None,
            changes: None,
            action_required: None,
            task: None,
            verification: None,
            moved: None,
            artifacts: Vec::new(),
            next: Vec::new(),
            error: None,
        }
    }

    /// A failed response of `command` carrying `code` and `message`.
    pub fn error(command: &str, code: &str, message: &str) -> (r: Self)
        ensures
            is_bare_response(r, command@),
            !r.ok,
            r.error matches Some(e) && e.code@ == code@ && e.message@ == message@,
    {
        let mut response = Self::success(command);
        response.ok = false;
        response.error = Some(SddErrorPayload { code: String::from_str(code), message: String::from_str(message) });
        response
    }
}

/// The failed response of `command` for an error message.
pub fn error_response(command: &str, text: &str) -> (r: SddResponse)
    ensures
        is_bare_response(r, command@),
        !r.ok,
        r.error matches Some(e) && (e.code@, e.message@) == error_parts_of(text@),
{
    let (code, message) = error_parts(text);
    SddResponse::error(command, code.as_str(), message.as_str())
}

// ---------------------------------------------------------------------------
// Command input
// ---------------------------------------------------------------------------

/// Largest input a command accepts, in bytes.
pub const MAX_INPUT_BYTES: usize = 1048576;

/// What was read for an input argument: standard input's text (for `-`),
/// a file's bytes, or the message of the read error.
pub enum InputRead {
    Stdin(String),
    File(Vec<u8>),
    Failed(String),
}

/// `String::from_utf8`: the text whose UTF-8 encoding is `bytes`, when the
/// bytes are valid UTF-8.
#[verifier::external_body]
fn decode_utf8(bytes: Vec<u8>) -> (r: Option<String>)
    ensures
        match r {
            Some(s) => crate::digest::utf8(s@) == bytes@,
            None => forall|s: Seq<char>| crate::digest::utf8(s) != bytes@,
        },
{
    String::from_utf8(bytes).ok()
}

/// The input text of a command: none without an argument; the read error;
/// too large beyond `MAX_INPUT_BYTES`; not UTF-8 for a file whose bytes
/// are not; otherwise the text.
pub fn load_input(read: Option<InputRead>) -> (r: Result<Option<String>, SddError>)
    ensures
        match read {
            None => r matches Ok(None),
            Some(InputRead::Failed(m)) => r matches Err(SddError::Io(e)) && e@ == m@,
            Some(InputRead::Stdin(s)) => if utf8_len(s@) > MAX_INPUT_BYTES {
                r matches Err(SddError::Invalid(e)) && e@ == "SDD_INPUT_TOO_LARGE"@
            } else {
                r matches Ok(Some(t)) && t@ == s@
            },
            Some(InputRead::File(b)) => if b@.len() > MAX_INPUT_BYTES {
                r matches Err(SddError::Invalid(e)) && e@ == "SDD_INPUT_TOO_LARGE"@
            } else if exists|t: Seq<char>| crate::digest::utf8(t) == b@ {
                r matches Ok(Some(t)) && crate::digest::utf8(t@) == b@
            } else {
                r matches Err(SddError::Invalid(e)) && e@ == "SDD_INPUT_NOT_UTF8"@
            },
        },
{
    match read {
        None => Ok(None),
        Some(InputRead::Failed(m)) => Err(SddError::Io(m)),
        Some(InputRead::Stdin(s)) => {
            if utf8_len_capped(s.as_str(), MAX_INPUT_BYTES) > MAX_INPUT_BYTES {
                Err(SddError::Invalid(String::from_str("SDD_INPUT_TOO_LARGE")))
            } else {
                Ok(Some(s))
            }
        },
        Some(InputRead::File(b)) => {
            if b.len() > MAX_INPUT_BYTES {
                return Err(SddError::Invalid(String::from_str("SDD_INPUT_TOO_LARGE")));
            }
            let ghost bv = b@;
            match decode_utf8(b) {
                Some(t) => Ok(Some(t)),
                None => Err(SddError::Invalid(String::from_str("SDD_INPUT_NOT_UTF8"))),
            }
        },
    }
}

/// A title character in a slug: ASCII letters and digits lowercased,
/// anything else a dash.
pub open spec fn slug_char(c: char) -> char {
    if crate::text::is_ascii_alnum(c) { crate::text::ascii_lower(c) } else { '-' }
}

/// The slug of a title: its words of ASCII letters and digits, lowercased
/// and joined by single dashes; `change` when there are none.
pub open spec fn slug_of(title: Seq<char>) -> Seq<char> {
    let mapped = Seq::new(title.len(), |i: int| slug_char(title[i]));
    let s = crate::text::join(crate::ask::drop_empty(crate::text::split_by(mapped, crate::text::Sep::Dash)), "-"@);
    if s.len() == 0 { "change"@ } else { s }
}

/// `s` without dashes.
pub open spec fn without_dashes(s: Seq<char>) -> Seq<char>
    decreases s.len(),
{
    if s.len() == 0 {
        seq![]
    } else if s.last() == '-' {
        without_dashes(s.drop_last())
    } else {
        without_dashes(s.drop_last()).push(s.last())
    }
}

/// The first choice of a change id: the date without dashes, the title's
/// slug and the first eight hex digits of the title's SHA-256.
pub open spec fn change_id_prefix_of(title: Seq<char>, date: Seq<char>) -> Seq<char> {
    without_dashes(date) + "-"@ + slug_of(title) + "-"@ + crate::digest::text_hash(title).take(8)
}

/// The slug of a title.
pub fn change_slug(title: &str) -> (r: String)
    ensures
        r@ == slug_of(title@),
{
    let t = chars_of(title);
    let mut mapped: Vec<char> = Vec::new();
    let mut i: usize = 0;
    while i < t.len()
        invariant
            i <= t@.len(),
            t@ == title@,
            mapped@ == Seq::new(i as nat, |j: int| slug_char(t@[j])),
        decreases t@.len() - i,
    {
        let c = t[i];
        let m = if ('a' <= c && c <= 'z') || ('A' <= c && c <= 'Z') || ('0' <= c && c <= '9') {
            crate::text::to_ascii_lower(c)
        } else {
            '-'
        };
        mapped.push(m);
        assert(mapped@ =~= Seq::new((i + 1) as nat, |j: int| slug_char(t@[j])));
        i = i + 1;
    }
    assert(mapped@ =~= Seq::new(title@.len(), |j: int| slug_char(title@[j])));
    let pieces = crate::text::split_chars(mapped.as_slice(), crate::text::Sep::Dash);
    let mut kept: Vec<Vec<char>> = Vec::new();
    let mut k: usize = 0;
    while k < pieces.len()
        invariant
            k <= pieces@.len(),
            crate::text::views(kept@) == crate::ask::drop_empty(crate::text::views(pieces@).take(k as int)),
        decreases pieces@.len() - k,
    {
        proof {
            let pv = crate::text::views(pieces@);
            assert(pv.take(k + 1).drop_last() =~= pv.take(k as int));
            assert(pv.take(k + 1).last() == pieces@[k as int]@);
        }
        if pieces[k].len() > 0 {
            let ghost before = crate::text::views(kept@);
            let piece = slice_chars(pieces[k].as_slice(), 0, pieces[k].len());
            assert(piece@ =~= pieces@[k as int]@);
            kept.push(piece);
            assert(crate::text::views(kept@) =~= before.push(pieces@[k as int]@));
        }
        k = k + 1;
    }
    assert(crate::text::views(pieces@).take(pieces@.len() as int) =~= crate::text::views(pieces@));
    let mut out = String::new();
    crate::text::push_joined(&mut out, &kept, "-");
    if out.as_str().unicode_len() == 0 {
        String::from_str("change")
    } else {
        out
    }
}

/// The first choice of a change id for a title created on `date`
/// (`YYYY-MM-DD`).
pub fn change_id_prefix(title: &str, date: &str) -> (r: String)
    ensures
        r@ == change_id_prefix_of(title@, date@),
{
    let d = chars_of(date);
    let mut out = String::new();
    let mut i: usize = 0;
    while i < d.len()
        invariant
            i <= d@.len(),
            d@ == date@,
            out@ == without_dashes(d@.take(i as int)),
        decreases d@.len() - i,
    {
        proof {
            assert(d@.take(i + 1).drop_last() =~= d@.take(i as int));
            assert(d@.take(i + 1).last() == d@[i as int]);
        }
        if d[i] != '-' {
            crate::text::push_char(&mut out, d[i]);
        }
        i = i + 1;
    }
    assert(d@.take(d@.len() as int) =~= d@);
    out.append("-");
    let slug = change_slug(title);
    out.append(slug.as_str());
    out.append("-");
    let hash = chars_of(crate::digest::hash_text(title).as_str());
    let head = slice_chars(hash.as_slice(), 0, 8);
    crate::text::push_chars(&mut out, head.as_slice());
    proof {
        reveal_strlit("-");
        assert(out@ =~= change_id_prefix_of(title@, date@));
    }
    out
}

/// The `index`-th alternative to a taken change id: the id, a dash and
/// the index.
pub fn change_id_candidate(prefix: &str, index: u64) -> (r: String)
    ensures
        r@ == prefix@ + "-"@ + crate::fmt::decimal(index as nat),
{
    let mut out = String::from_str(prefix);
    out.append("-");
    crate::fmt::push_decimal(&mut out, index);
    out
}

} // verus!
