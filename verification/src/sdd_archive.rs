//! Archiving an SDD change: the fingerprint of its `spec/` and `tasks/`
//! content taken at verification, and the checks an archive must pass.

use vstd::prelude::*;
use crate::digest::{hex, hex_string, sha256, sha256_of, utf8, utf8_bytes};
use crate::sdd_check::ChangeStructure;
use crate::sdd_verify::{lemma_unfinished_bounds, unfinished_of, unfinished_tasks, SddError};
use crate::text::{
    chars_equal_str, chars_lt, chars_of, lemma_lex_asymmetric, lemma_lex_irreflexive, lemma_lex_total,
    lemma_lex_transitive, lex_lt,
};

verus! {

/// A file under a change's `spec/` or `tasks/`: its path relative to the
/// change directory and its bytes.
pub struct ChangeFile {
    pub path: String,
    pub content: Vec<u8>,
}

pub type FileView = (Seq<char>, Seq<u8>);

pub open spec fn file_views(v: Seq<ChangeFile>) -> Seq<FileView> {
    Seq::new(v.len(), |i: int| (v[i].path@, v[i].content@))
}

/// `x` placed in `s` after every file whose path is not greater than its own.
pub open spec fn insert_by_path(s: Seq<FileView>, x: FileView) -> Seq<FileView>
    decreases s.len(),
{
    if s.len() == 0 {
        seq![x]
    } else if lex_lt(x.0, s[0].0) {
        seq![x] + s
    } else {
        seq![s[0]] + insert_by_path(s.drop_first(), x)
    }
}

/// The files in path order; files with equal paths keep their given order
/// (a stable sort by path).
pub open spec fn by_path(s: Seq<FileView>) -> Seq<FileView>
    decreases s.len(),
{
    if s.len() == 0 {
        seq![]
    } else {
        insert_by_path(by_path(s.drop_last()), s.last())
    }
}

/// Each file's path as UTF-8, a zero byte, its content and a zero byte, in
/// turn.
pub open spec fn framed(s: Seq<FileView>) -> Seq<u8>
    decreases s.len(),
{
    if s.len() == 0 {
        seq![]
    } else {
        framed(s.drop_last()) + utf8(s.last().0) + seq![0u8] + s.last().1 + seq![0u8]
    }
}

/// The fingerprint of a change's files: the SHA-256, in lower-case hex, of
/// the files framed in path order.
pub open spec fn fingerprint_of(files: Seq<FileView>) -> Seq<char> {
    hex(sha256_of(framed(by_path(files))))
}

proof fn lemma_insert_at(s: Seq<FileView>, x: FileView, p: int)
    requires
        0 <= p <= s.len(),
        forall|j: int| 0 <= j < p ==> !lex_lt(x.0, (#[trigger] s[j]).0),
        p < s.len() ==> lex_lt(x.0, s[p].0),
    ensures
        insert_by_path(s, x) == s.take(p).push(x) + s.skip(p),
    decreases s.len(),
{
    if s.len() == 0 {
        assert(s.take(p).push(x) + s.skip(p) =~= seq![x]);
    } else if p == 0 {
        assert(s.take(p).push(x) + s.skip(p) =~= seq![x] + s);
    } else {
        let t = s.drop_first();
        assert forall|j: int| 0 <= j < p - 1 implies !lex_lt(x.0, (#[trigger] t[j]).0) by {
            assert(t[j] == s[j + 1]);
        }
        if p < s.len() {
            assert(t[p - 1] == s[p]);
        }
        assert(!lex_lt(x.0, s[0].0));
        lemma_insert_at(t, x, p - 1);
        assert(seq![s[0]] + (t.take(p - 1).push(x) + t.skip(p - 1)) =~= s.take(p).push(x) + s.skip(p));
    }
}

/// No two files share a path.
pub open spec fn distinct_paths(s: Seq<FileView>) -> bool {
    forall|i: int, j: int| 0 <= i < j < s.len() ==> (#[trigger] s[i]).0 != (#[trigger] s[j]).0
}

/// Paths strictly increase along `s`.
pub open spec fn paths_increase(s: Seq<FileView>) -> bool {
    forall|i: int, j: int| 0 <= i < j < s.len() ==> lex_lt((#[trigger] s[i]).0, (#[trigger] s[j]).0)
}

proof fn lemma_insert_multiset(s: Seq<FileView>, x: FileView)
    ensures
        insert_by_path(s, x).to_multiset() == s.to_multiset().insert(x),
    decreases s.len(),
{
    broadcast use vstd::seq_lib::group_to_multiset_ensures;

    if s.len() == 0 {
        assert(seq![x] =~= Seq::<FileView>::empty().push(x));
    } else if lex_lt(x.0, s[0].0) {
        assert(seq![x] + s =~= s.insert(0, x));
    } else {
        let t = s.drop_first();
        lemma_insert_multiset(t, x);
        let r = insert_by_path(t, x);
        assert(seq![s[0]] + r =~= r.insert(0, s[0]));
        assert(s =~= t.insert(0, s[0]));
        assert(s.to_multiset() == t.to_multiset().insert(s[0]));
        assert((seq![s[0]] + r).to_multiset() =~= s.to_multiset().insert(x));
    }
}

proof fn lemma_by_path_multiset(s: Seq<FileView>)
    ensures
        by_path(s).to_multiset() == s.to_multiset(),
    decreases s.len(),
{
    broadcast use vstd::seq_lib::group_to_multiset_ensures;

    if s.len() > 0 {
        lemma_by_path_multiset(s.drop_last());
        lemma_insert_multiset(by_path(s.drop_last()), s.last());
        assert(s =~= s.drop_last().push(s.last()));
    }
}

proof fn lemma_insert_increasing(s: Seq<FileView>, x: FileView)
    requires
        paths_increase(s),
        forall|i: int| 0 <= i < s.len() ==> (#[trigger] s[i]).0 != x.0,
    ensures
        paths_increase(insert_by_path(s, x)),
    decreases s.len(),
{
    broadcast use vstd::seq_lib::group_to_multiset_ensures;

    if s.len() == 0 {
    } else if lex_lt(x.0, s[0].0) {
        let r = seq![x] + s;
        assert forall|i: int, j: int| 0 <= i < j < r.len() implies lex_lt((#[trigger] r[i]).0, (#[trigger] r[j]).0) by {
            if i == 0 {
                if j > 1 {
                    lemma_lex_transitive(x.0, s[0].0, s[j - 1].0);
                }
            } else {
                assert(r[i] == s[i - 1] && r[j] == s[j - 1]);
            }
        }
    } else {
        let t = s.drop_first();
        assert forall|i: int, j: int| 0 <= i < j < t.len() implies lex_lt((#[trigger] t[i]).0, (#[trigger] t[j]).0) by {
            assert(t[i] == s[i + 1] && t[j] == s[j + 1]);
        }
        assert forall|i: int| 0 <= i < t.len() implies (#[trigger] t[i]).0 != x.0 by {
            assert(t[i] == s[i + 1]);
        }
        lemma_insert_increasing(t, x);
        lemma_insert_multiset(t, x);
        lemma_lex_total(s[0].0, x.0);
        let r = insert_by_path(t, x);
        let w = seq![s[0]] + r;
        assert forall|j: int| 0 <= j < r.len() implies lex_lt(s[0].0, (#[trigger] r[j]).0) by {
            assert(r.to_multiset().count(r[j]) > 0);
            if r[j] != x {
                assert(t.to_multiset().count(r[j]) > 0);
                assert(t.contains(r[j]));
                let k = choose|k: int| 0 <= k < t.len() && t[k] == r[j];
                assert(t[k] == s[k + 1]);
            }
        }
        assert forall|i: int, j: int| 0 <= i < j < w.len() implies lex_lt((#[trigger] w[i]).0, (#[trigger] w[j]).0) by {
            if i == 0 {
                assert(w[j] == r[j - 1]);
            } else {
                assert(w[i] == r[i - 1] && w[j] == r[j - 1]);
            }
        }
    }
}

proof fn lemma_by_path_increasing(s: Seq<FileView>)
    requires
        distinct_paths(s),
    ensures
        paths_increase(by_path(s)),
    decreases s.len(),
{
    broadcast use vstd::seq_lib::group_to_multiset_ensures;

    if s.len() > 0 {
        let d = s.drop_last();
        assert forall|i: int, j: int| 0 <= i < j < d.len() implies (#[trigger] d[i]).0 != (#[trigger] d[j]).0 by {
            assert(d[i] == s[i] && d[j] == s[j]);
        }
        lemma_by_path_increasing(d);
        lemma_by_path_multiset(d);
        let b = by_path(d);
        assert forall|i: int| 0 <= i < b.len() implies (#[trigger] b[i]).0 != s.last().0 by {
            assert(b.to_multiset().count(b[i]) > 0);
            assert(d.contains(b[i]));
            let k = choose|k: int| 0 <= k < d.len() && d[k] == b[i];
            assert(d[k] == s[k]);
        }
        lemma_insert_increasing(b, s.last());
    }
}

proof fn lemma_increasing_unique(a: Seq<FileView>, b: Seq<FileView>)
    requires
        paths_increase(a),
        paths_increase(b),
        a.to_multiset() == b.to_multiset(),
    ensures
        a == b,
    decreases a.len(),
{
    broadcast use vstd::seq_lib::group_to_multiset_ensures;

    assert(a.len() == a.to_multiset().len());
    assert(b.len() == b.to_multiset().len());
    if a.len() == 0 {
        assert(a =~= b);
    } else {
        assert(a.to_multiset().count(a[0]) > 0);
        assert(b.contains(a[0]));
        let j = choose|j: int| 0 <= j < b.len() && b[j] == a[0];
        assert(b.to_multiset().count(b[0]) > 0);
        assert(a.contains(b[0]));
        let i = choose|i: int| 0 <= i < a.len() && a[i] == b[0];
        if j > 0 {
            if i > 0 {
                assert(lex_lt(a[0].0, a[i].0));
                assert(lex_lt(b[0].0, b[j].0));
                lemma_lex_asymmetric(a[0].0, b[0].0);
            } else {
                assert(lex_lt(b[0].0, b[j].0));
                lemma_lex_irreflexive(b[0].0);
            }
        }
        assert(a[0] == b[0]);
        let a1 = a.drop_first();
        let b1 = b.drop_first();
        assert(a1 =~= a.remove(0));
        assert(b1 =~= b.remove(0));
        assert forall|x: int, y: int| 0 <= x < y < a1.len() implies lex_lt((#[trigger] a1[x]).0, (#[trigger] a1[y]).0) by {
            assert(a1[x] == a[x + 1] && a1[y] == a[y + 1]);
        }
        assert forall|x: int, y: int| 0 <= x < y < b1.len() implies lex_lt((#[trigger] b1[x]).0, (#[trigger] b1[y]).0) by {
            assert(b1[x] == b[x + 1] && b1[y] == b[y + 1]);
        }
        lemma_increasing_unique(a1, b1);
        assert forall|k: int| 0 <= k < a.len() implies a[k] == b[k] by {
            if k > 0 {
                assert(a[k] == a1[k - 1] && b[k] == b1[k - 1]);
            }
        }
        assert(a =~= b);
    }
}

/// The fingerprint of a change does not depend on the order in which its
/// files were listed, as long as no two share a path.
pub proof fn fingerprint_ignores_listing_order(a: Seq<FileView>, b: Seq<FileView>)
    requires
        distinct_paths(a),
        a.to_multiset() == b.to_multiset(),
    ensures
        fingerprint_of(a) == fingerprint_of(b),
{
    broadcast use vstd::seq_lib::group_to_multiset_ensures;

    assert forall|i: int, j: int| 0 <= i < j < b.len() implies (#[trigger] b[i]).0 != (#[trigger] b[j]).0 by {
        if b[i].0 == b[j].0 {
            lemma_by_path_increasing(a);
            lemma_by_path_multiset(a);
            assert(b.contains(b[i]) && b.contains(b[j]));
            assert(a.to_multiset().count(b[i]) > 0 && a.to_multiset().count(b[j]) > 0);
            let x = choose|x: int| 0 <= x < a.len() && a[x] == b[i];
            let y = choose|y: int| 0 <= y < a.len() && a[y] == b[j];
            if x == y {
                assert(b[i] == b[j]);
                let r = b.remove(j);
                assert(r.to_multiset() == b.to_multiset().remove(b[j]));
                assert(r[i] == b[i]);
                assert(r.to_multiset().count(b[i]) > 0);
                assert(a.to_multiset().count(b[i]) >= 2);
                assert(a.remove(x).to_multiset() == a.to_multiset().remove(a[x]));
                assert(a.remove(x).contains(b[i]));
                let z = choose|z: int| 0 <= z < a.remove(x).len() && a.remove(x)[z] == b[i];
                if z < x {
                    assert(a[z] == b[i]);
                } else {
                    assert(a[z + 1] == b[i]);
                }
            }
        }
    }
    lemma_by_path_increasing(a);
    lemma_by_path_increasing(b);
    lemma_by_path_multiset(a);
    lemma_by_path_multiset(b);
    lemma_increasing_unique(by_path(a), by_path(b));
}

/// The files that `order` picks out of `fv`, in its order.
pub open spec fn picked(fv: Seq<FileView>, order: Seq<usize>) -> Seq<FileView> {
    Seq::new(order.len(), |k: int| fv[order[k] as int])
}

fn append_bytes(out: &mut Vec<u8>, src: &[u8])
    ensures
        final(out)@ == old(out)@ + src@,
{
    let mut i: usize = 0;
    while i < src.len()
        invariant
            i <= src@.len(),
            out@ == old(out)@ + src@.take(i as int),
        decreases src@.len() - i,
    {
        out.push(src[i]);
        proof {
            assert(src@.take(i + 1) =~= src@.take(i as int).push(src@[i as int]));
        }
        i = i + 1;
    }
    assert(src@.take(src@.len() as int) =~= src@);
}

/// Positions of the files in path order, ties in their given order.
fn path_order(files: &Vec<ChangeFile>) -> (order: Vec<usize>)
    ensures
        forall|k: int| 0 <= k < order@.len() ==> order@[k] < files@.len(),
        picked(file_views(files@), order@) == by_path(file_views(files@)),
{
    let ghost fv = file_views(files@);
    let mut order: Vec<usize> = Vec::new();
    let mut i: usize = 0;
    assert(picked(fv, order@) =~= by_path(fv.take(0)));
    while i < files.len()
        invariant
            i <= files@.len(),
            fv == file_views(files@),
            forall|k: int| 0 <= k < order@.len() ==> order@[k] < i,
            picked(fv, order@) == by_path(fv.take(i as int)),
        decreases files@.len() - i,
    {
        let path = chars_of(files[i].path.as_str());
        let ghost s = picked(fv, order@);
        let mut p: usize = 0;
        while p < order.len()
            invariant
                p <= order@.len(),
                i < files@.len(),
                fv == file_views(files@),
                s == picked(fv, order@),
                path@ == fv[i as int].0,
                forall|k: int| 0 <= k < order@.len() ==> order@[k] < i,
                forall|j: int| 0 <= j < p ==> !lex_lt(path@, (#[trigger] s[j]).0),
            ensures
                p <= order@.len(),
                s == picked(fv, order@),
                forall|j: int| 0 <= j < p ==> !lex_lt(path@, (#[trigger] s[j]).0),
                p < order@.len() ==> lex_lt(path@, s[p as int].0),
            decreases order@.len() - p,
        {
            let other = chars_of(files[order[p]].path.as_str());
            assert(s[p as int] == fv[order@[p as int] as int]);
            if chars_lt(path.as_slice(), other.as_slice()) {
                break;
            }
            p = p + 1;
        }
        proof {
            lemma_insert_at(s, fv[i as int], p as int);
            assert(fv.take(i + 1).drop_last() =~= fv.take(i as int));
            assert(fv.take(i + 1).last() == fv[i as int]);
        }
        order.insert(p, i);
        proof {
            assert(picked(fv, order@) =~= s.take(p as int).push(fv[i as int]) + s.skip(p as int));
        }
        i = i + 1;
    }
    assert(fv.take(files@.len() as int) =~= fv);
    order
}

/// The fingerprint of a change's `spec/` and `tasks/` files, which archiving
/// compares with the one recorded when the change was verified.
pub fn content_fingerprint(files: &Vec<ChangeFile>) -> (r: String)
    ensures
        r@ == fingerprint_of(file_views(files@)),
{
    let ghost fv = file_views(files@);
    let order = path_order(files);
    let ghost sorted = picked(fv, order@);
    let mut bytes: Vec<u8> = Vec::new();
    let mut k: usize = 0;
    assert(sorted.take(0) =~= Seq::<FileView>::empty());
    while k < order.len()
        invariant
            k <= order@.len(),
            fv == file_views(files@),
            sorted == picked(fv, order@),
            forall|j: int| 0 <= j < order@.len() ==> order@[j] < files@.len(),
            bytes@ == framed(sorted.take(k as int)),
        decreases order@.len() - k,
    {
        let file = &files[order[k]];
        let path = utf8_bytes(file.path.as_str());
        append_bytes(&mut bytes, path.as_slice());
        bytes.push(0u8);
        append_bytes(&mut bytes, file.content.as_slice());
        bytes.push(0u8);
        proof {
            assert(sorted[k as int] == fv[order@[k as int] as int]);
            assert(sorted.take(k + 1).drop_last() =~= sorted.take(k as int));
            assert(sorted.take(k + 1).last() == sorted[k as int]);
            assert(bytes@ =~= framed(sorted.take(k + 1)));
        }
        k = k + 1;
    }
    assert(sorted.take(order@.len() as int) =~= sorted);
    let digest = sha256(bytes.as_slice());
    hex_string(digest.as_slice())
}

/// Why a change with this status, structure and recorded fingerprint is not
/// ready to archive: not verified, a task neither done nor dropped (the
/// first), or no fingerprint recorded.
pub open spec fn readiness_error(
    status: Seq<char>,
    structure: ChangeStructure,
    verified: Option<Seq<char>>,
) -> Option<Seq<char>> {
    let unfinished = unfinished_of(structure.tasks@, structure.has_tasks);
    if status != "verified"@ {
        Some("SDD_ARCHIVE_NOT_READY: status is "@ + status + ", expected verified."@)
    } else if unfinished.len() > 0 {
        let task = structure.tasks@[unfinished[0]];
        Some("SDD_ARCHIVE_TASKS_INCOMPLETE: 任务 "@ + task.id@ + " 尚未完成："@ + task.status@)
    } else if verified is None {
        Some("SDD_VERIFICATION_STALE: verified fingerprint is missing; rerun wiki sdd verify."@)
    } else {
        None
    }
}

/// The first archive check, made before the change's files are read: the
/// change must be verified.
pub fn archive_status(status: &str) -> (r: Result<(), SddError>)
    ensures
        status@ == "verified"@ ==> r is Ok,
        status@ != "verified"@ ==> (r matches Err(SddError::Invalid(e)) && e@ == "SDD_ARCHIVE_NOT_READY: status is "@
            + status@ + ", expected verified."@),
{
    let status_chars = chars_of(status);
    if !chars_equal_str(status_chars.as_slice(), "verified") {
        let mut m = String::from_str("SDD_ARCHIVE_NOT_READY: status is ");
        m.append(status);
        m.append(", expected verified.");
        return Err(SddError::Invalid(m));
    }
    Ok(())
}

/// Whether a change may be archived, before its content is compared with
/// the fingerprint recorded at verification.
pub fn archive_ready(status: &str, structure: &ChangeStructure, verified_fingerprint: Option<&str>) -> (r: Result<
    (),
    SddError,
>)
    ensures
        match readiness_error(status@, *structure, match verified_fingerprint {
            Some(f) => Some(f@),
            None => None,
        }) {
            Some(m) => r matches Err(SddError::Invalid(e)) && e@ == m,
            None => r is Ok,
        },
{
    let status_chars = chars_of(status);
    if !chars_equal_str(status_chars.as_slice(), "verified") {
        let mut m = String::from_str("SDD_ARCHIVE_NOT_READY: status is ");
        m.append(status);
        m.append(", expected verified.");
        return Err(SddError::Invalid(m));
    }
    let unfinished = unfinished_tasks(structure);
    if unfinished.len() > 0 {
        proof {
            lemma_unfinished_bounds(structure.tasks@, structure.has_tasks, 0);
        }
        let task = &structure.tasks[unfinished[0]];
        let mut m = String::from_str("SDD_ARCHIVE_TASKS_INCOMPLETE: 任务 ");
        m.append(task.id.as_str());
        m.append(" 尚未完成：");
        m.append(task.status.as_str());
        return Err(SddError::Invalid(m));
    }
    match verified_fingerprint {
        None => Err(
            SddError::Invalid(
                String::from_str("SDD_VERIFICATION_STALE: verified fingerprint is missing; rerun wiki sdd verify."),
            ),
        ),
        Some(_) => Ok(()),
    }
}

/// Why a ready change still cannot move: its content changed since
/// verification, or the archive already holds a change of that id.
pub open spec fn move_error(verified: Seq<char>, current: Seq<char>, destination_exists: bool, destination: Seq<char>) -> Option<
    Seq<char>,
> {
    if current != verified {
        Some("SDD_VERIFICATION_STALE: spec/ or tasks/ changed after verification; rerun wiki sdd verify."@)
    } else if destination_exists {
        Some("SDD_ARCHIVE_EXISTS: "@ + destination)
    } else {
        None
    }
}

/// Whether a ready change may move to `destination`, given the fingerprint
/// recorded at verification and that of its content now.
pub fn archive_move(verified: &str, current: &str, destination_exists: bool, destination: &str) -> (r: Result<
    (),
    SddError,
>)
    ensures
        match move_error(verified@, current@, destination_exists, destination@) {
            Some(m) => r matches Err(SddError::Invalid(e)) && e@ == m,
            None => r is Ok,
        },
{
    let current_chars = chars_of(current);
    if !chars_equal_str(current_chars.as_slice(), verified) {
        return Err(
            SddError::Invalid(
                String::from_str(
                    "SDD_VERIFICATION_STALE: spec/ or tasks/ changed after verification; rerun wiki sdd verify.",
                ),
            ),
        );
    }
    if destination_exists {
        let mut m = String::from_str("SDD_ARCHIVE_EXISTS: ");
        m.append(destination);
        return Err(SddError::Invalid(m));
    }
    Ok(())
}

/// A change moves to the archives only when it is verified, every declared
/// task is done or dropped, a fingerprint was recorded at verification and
/// its content still has that fingerprint, and the archive holds no change
/// of that id; a change that is not verified is refused as not ready, one
/// with an open task as incomplete, and one whose content changed as stale.
pub proof fn archive_gate(
    status: Seq<char>,
    structure: ChangeStructure,
    verified: Option<Seq<char>>,
    current: Seq<char>,
    destination_exists: bool,
    destination: Seq<char>,
)
    ensures
        (readiness_error(status, structure, verified) is None && (verified matches Some(f) && move_error(
            f,
            current,
            destination_exists,
            destination,
        ) is None)) <==> (status == "verified"@ && unfinished_of(structure.tasks@, structure.has_tasks).len() == 0
            && verified == Some(current) && !destination_exists),
        status != "verified"@ ==> readiness_error(status, structure, verified) == Some(
            "SDD_ARCHIVE_NOT_READY: status is "@ + status + ", expected verified."@,
        ),
        status == "verified"@ && unfinished_of(structure.tasks@, structure.has_tasks).len() > 0 ==> (readiness_error(
            status,
            structure,
            verified,
        ) matches Some(m) && m.take(29) == "SDD_ARCHIVE_TASKS_INCOMPLETE:"@),
        verified matches Some(f) ==> (f != current ==> move_error(f, current, destination_exists, destination)
            == Some("SDD_VERIFICATION_STALE: spec/ or tasks/ changed after verification; rerun wiki sdd verify."@)),
{
    let unfinished = unfinished_of(structure.tasks@, structure.has_tasks);
    if status == "verified"@ && unfinished.len() > 0 {
        let task = structure.tasks@[unfinished[0]];
        let m = "SDD_ARCHIVE_TASKS_INCOMPLETE: 任务 "@ + task.id@ + " 尚未完成："@ + task.status@;
        reveal_strlit("SDD_ARCHIVE_TASKS_INCOMPLETE: 任务 ");
        reveal_strlit("SDD_ARCHIVE_TASKS_INCOMPLETE:");
        assert(m.take(29) =~= "SDD_ARCHIVE_TASKS_INCOMPLETE:"@);
    }
}

} // verus!

