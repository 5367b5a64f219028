//! Verification evidence of an SDD change: the checks an Agent reports, how
//! they are validated against the change, and the verdict they lead to.

use vstd::prelude::*;
use crate::sdd_check::{issue_if, lower_in, lower_in_options, strings_contain, task_ids, ChangeStructure};
use crate::sdd_parse::{is_prefixed_id, prefixed_id, RequirementDoc, TaskDoc};
use crate::sdd_tasks::task_statuses;
use crate::text::{chars_of, eq_ignore_case, eq_ignore_case_str, is_blank, str_views, views};

verus! {

/// The evidence an Agent supplies for `wiki sdd verify --input`.
pub struct VerificationInput {
    pub schema_version: String,
    pub result: String,
    pub tasks: Vec<TaskVerificationInput>,
    pub checks: Vec<CheckInput>,
}

/// A task status snapshot taken when the evidence was gathered.
pub struct TaskVerificationInput {
    pub id: String,
    pub status: String,
    pub evidence_refs: Vec<String>,
}

/// One check that was run, with what it references.
pub struct CheckInput {
    pub id: Option<String>,
    pub name: String,
    pub status: String,
    pub output: String,
    pub command: Option<String>,
    pub evidence_refs: Vec<String>,
    pub requirement_refs: Vec<String>,
    pub acceptance_refs: Vec<String>,
    pub task_refs: Vec<String>,
}

/// Errors of the SDD workflow; each carries its message, which starts with
/// an `SDD_*` code.
pub enum SddError {
    Invalid(String),
    Io(String),
    Yaml(String),
}

impl SddError {
    /// The message carried by the error.
    pub fn message(&self) -> (r: String)
        ensures
            r@ == match self {
                SddError::Invalid(m) => m@,
                SddError::Io(m) => m@,
                SddError::Yaml(m) => m@,
            },
    {
        match self {
            SddError::Invalid(m) => m.clone(),
            SddError::Io(m) => m.clone(),
            SddError::Yaml(m) => m.clone(),
        }
    }
}

pub open spec fn verification_results() -> Seq<Seq<char>> {
    seq!["pass"@, "passed"@, "fail"@, "failed"@, "needs_fix"@]
}

pub open spec fn check_statuses() -> Seq<Seq<char>> {
    seq!["pass"@, "passed"@, "fail"@, "failed"@, "skip"@, "skipped"@, "blocked"@]
}

pub open spec fn passing() -> Seq<Seq<char>> {
    seq!["pass"@, "passed"@]
}

/// The first reference of `refs` that is not a `prefix` identifier.
pub open spec fn first_bad_ref(refs: Seq<Seq<char>>, prefix: Seq<char>) -> Option<Seq<char>>
    decreases refs.len(),
{
    if refs.len() == 0 {
        None
    } else if !prefixed_id(refs[0], prefix) {
        Some(refs[0])
    } else {
        first_bad_ref(refs.drop_first(), prefix)
    }
}

/// The first acceptance reference that is neither `AC-*` nor `ACC-*`.
pub open spec fn first_bad_acceptance(refs: Seq<Seq<char>>) -> Option<Seq<char>>
    decreases refs.len(),
{
    if refs.len() == 0 {
        None
    } else if !prefixed_id(refs[0], "AC-"@) && !prefixed_id(refs[0], "ACC-"@) {
        Some(refs[0])
    } else {
        first_bad_acceptance(refs.drop_first())
    }
}

pub open spec fn opt_seq(o: Option<String>) -> Option<Seq<char>> {
    match o {
        Some(s) => Some(s@),
        None => None,
    }
}

/// The error message of one check, given the check identifiers seen before
/// it.
pub open spec fn check_error(c: CheckInput, seen: Set<Seq<char>>) -> Option<Seq<char>> {
    if is_blank(c.name@) || is_blank(c.status@) {
        Some("SDD_INVALID_VERIFICATION_CHECK: name and status are required."@)
    } else if c.id matches Some(id) && !prefixed_id(id@, "VERIFY-"@) {
        Some("SDD_INVALID_VERIFICATION_ID: "@ + c.id->0@)
    } else if c.id matches Some(id) && seen.contains(id@) {
        Some("SDD_DUPLICATE_ID: "@ + c.id->0@)
    } else if !lower_in(c.status@, check_statuses()) {
        Some("SDD_INVALID_VERIFICATION_STATUS: "@ + c.status@)
    } else if first_bad_ref(str_views(c.evidence_refs@), "E-"@) is Some {
        Some("SDD_INVALID_EVIDENCE_REFERENCE: "@ + first_bad_ref(str_views(c.evidence_refs@), "E-"@)->0)
    } else if first_bad_ref(str_views(c.requirement_refs@), "REQ-"@) is Some {
        Some("SDD_INVALID_REQUIREMENT_REFERENCE: "@ + first_bad_ref(str_views(c.requirement_refs@), "REQ-"@)->0)
    } else if first_bad_acceptance(str_views(c.acceptance_refs@)) is Some {
        Some("SDD_INVALID_ACCEPTANCE_REFERENCE: "@ + first_bad_acceptance(str_views(c.acceptance_refs@))->0)
    } else if first_bad_ref(str_views(c.task_refs@), "TASK-"@) is Some {
        Some("SDD_INVALID_TASK_REFERENCE: "@ + first_bad_ref(str_views(c.task_refs@), "TASK-"@)->0)
    } else {
        None
    }
}

/// The first error among `checks`, given the identifiers already seen.
pub open spec fn first_check_error(checks: Seq<CheckInput>, seen: Set<Seq<char>>) -> Option<Seq<char>>
    decreases checks.len(),
{
    if checks.len() == 0 {
        None
    } else {
        match check_error(checks[0], seen) {
            Some(m) => Some(m),
            None => first_check_error(
                checks.drop_first(),
                match checks[0].id {
                    Some(id) => seen.insert(id@),
                    None => seen,
                },
            ),
        }
    }
}

/// The error message of one task snapshot, given the identifiers seen
/// before it.
pub open spec fn snapshot_error(t: TaskVerificationInput, seen: Set<Seq<char>>) -> Option<Seq<char>> {
    if !prefixed_id(t.id@, "TASK-"@) {
        Some("SDD_INVALID_TASK_REFERENCE: "@ + t.id@)
    } else if seen.contains(t.id@) {
        Some("SDD_DUPLICATE_ID: "@ + t.id@)
    } else if !lower_in(t.status@, task_statuses()) {
        Some("SDD_INVALID_TASK_STATUS: "@ + t.status@)
    } else if first_bad_ref(str_views(t.evidence_refs@), "E-"@) is Some {
        Some("SDD_INVALID_EVIDENCE_REFERENCE: "@ + first_bad_ref(str_views(t.evidence_refs@), "E-"@)->0)
    } else {
        None
    }
}

pub open spec fn first_snapshot_error(tasks: Seq<TaskVerificationInput>, seen: Set<Seq<char>>) -> Option<Seq<char>>
    decreases tasks.len(),
{
    if tasks.len() == 0 {
        None
    } else {
        match snapshot_error(tasks[0], seen) {
            Some(m) => Some(m),
            None => first_snapshot_error(tasks.drop_first(), seen.insert(tasks[0].id@)),
        }
    }
}

/// Why verification evidence is malformed, if it is: the first failing
/// rule in order.
pub open spec fn verification_error(v: VerificationInput) -> Option<Seq<char>> {
    if !lower_in(v.result@, verification_results()) {
        Some("SDD_INVALID_VERIFICATION_RESULT: "@ + v.result@)
    } else if v.checks@.len() == 0 {
        Some(
            "SDD_VERIFICATION_EVIDENCE_REQUIRED: at least one check is required when verification input is supplied."@,
        )
    } else {
        match first_check_error(v.checks@, Set::empty()) {
            Some(m) => Some(m),
            None => first_snapshot_error(v.tasks@, Set::empty()),
        }
    }
}

/// Every reference has the prefix.
pub open spec fn refs_ok(refs: Seq<Seq<char>>, prefix: Seq<char>) -> bool {
    forall|i: int| 0 <= i < refs.len() ==> prefixed_id(#[trigger] refs[i], prefix)
}

/// Every acceptance reference is `AC-*` or `ACC-*`.
pub open spec fn acceptance_ok(refs: Seq<Seq<char>>) -> bool {
    forall|i: int| 0 <= i < refs.len() ==> prefixed_id(#[trigger] refs[i], "AC-"@) || prefixed_id(refs[i], "ACC-"@)
}

/// A well-formed check: a name and a known status, a `VERIFY-` id if it has
/// one, and well-prefixed references.
pub open spec fn check_ok(c: CheckInput) -> bool {
    &&& !is_blank(c.name@)
    &&& !is_blank(c.status@)
    &&& (c.id matches Some(id) ==> prefixed_id(id@, "VERIFY-"@))
    &&& lower_in(c.status@, check_statuses())
    &&& refs_ok(str_views(c.evidence_refs@), "E-"@)
    &&& refs_ok(str_views(c.requirement_refs@), "REQ-"@)
    &&& acceptance_ok(str_views(c.acceptance_refs@))
    &&& refs_ok(str_views(c.task_refs@), "TASK-"@)
}

/// The check has an id, and it is `id`.
pub open spec fn has_check_id(c: CheckInput, id: Seq<char>) -> bool {
    c.id matches Some(x) && x@ == id
}

/// No two checks share an id, and none has an id in `seen`.
pub open spec fn check_ids_fresh(checks: Seq<CheckInput>, seen: Set<Seq<char>>) -> bool {
    &&& forall|i: int, id: Seq<char>| 0 <= i < checks.len() && #[trigger] has_check_id(checks[i], id) ==> !seen.contains(id)
    &&& forall|i: int, j: int, id: Seq<char>|
        0 <= i < j < checks.len() && #[trigger] has_check_id(checks[i], id) ==> !(#[trigger] has_check_id(checks[j], id))
}

/// A well-formed task snapshot: a `TASK-` id, a known status and `E-`
/// evidence references.
pub open spec fn snapshot_ok(t: TaskVerificationInput) -> bool {
    &&& prefixed_id(t.id@, "TASK-"@)
    &&& lower_in(t.status@, task_statuses())
    &&& refs_ok(str_views(t.evidence_refs@), "E-"@)
}

/// No two snapshots share an id, and none has an id in `seen`.
pub open spec fn snapshot_ids_fresh(tasks: Seq<TaskVerificationInput>, seen: Set<Seq<char>>) -> bool {
    &&& forall|i: int| 0 <= i < tasks.len() ==> !seen.contains((#[trigger] tasks[i]).id@)
    &&& forall|i: int, j: int| 0 <= i < j < tasks.len() ==> (#[trigger] tasks[i]).id@ != (#[trigger] tasks[j]).id@
}

/// Well-formed evidence, rule by rule over all checks and tasks.
pub open spec fn evidence_ok(v: VerificationInput) -> bool {
    &&& lower_in(v.result@, verification_results())
    &&& v.checks@.len() > 0
    &&& forall|i: int| 0 <= i < v.checks@.len() ==> check_ok(#[trigger] v.checks@[i])
    &&& check_ids_fresh(v.checks@, Set::empty())
    &&& forall|i: int| 0 <= i < v.tasks@.len() ==> snapshot_ok(#[trigger] v.tasks@[i])
    &&& snapshot_ids_fresh(v.tasks@, Set::empty())
}

proof fn lemma_refs_ok(refs: Seq<Seq<char>>, prefix: Seq<char>)
    ensures
        first_bad_ref(refs, prefix) is None <==> refs_ok(refs, prefix),
    decreases refs.len(),
{
    if refs.len() > 0 {
        lemma_refs_ok(refs.drop_first(), prefix);
        assert forall|i: int| 0 < i < refs.len() implies refs[i] == refs.drop_first()[i - 1] by {}
        if refs_ok(refs.drop_first(), prefix) && prefixed_id(refs[0], prefix) {
            assert forall|i: int| 0 <= i < refs.len() implies prefixed_id(#[trigger] refs[i], prefix) by {
                if i > 0 {
                    assert(prefixed_id(refs.drop_first()[i - 1], prefix));
                }
            }
        }
        if refs_ok(refs, prefix) {
            assert(prefixed_id(refs[0], prefix));
            assert forall|i: int| 0 <= i < refs.drop_first().len() implies prefixed_id(#[trigger] refs.drop_first()[i], prefix) by {
                assert(prefixed_id(refs[i + 1], prefix));
            }
        }
    }
}

proof fn lemma_acceptance_ok(refs: Seq<Seq<char>>)
    ensures
        first_bad_acceptance(refs) is None <==> acceptance_ok(refs),
    decreases refs.len(),
{
    if refs.len() > 0 {
        lemma_acceptance_ok(refs.drop_first());
        if acceptance_ok(refs.drop_first()) && (prefixed_id(refs[0], "AC-"@) || prefixed_id(refs[0], "ACC-"@)) {
            assert forall|i: int| 0 <= i < refs.len() implies prefixed_id(#[trigger] refs[i], "AC-"@) || prefixed_id(
                refs[i],
                "ACC-"@,
            ) by {
                if i > 0 {
                    assert(refs[i] == refs.drop_first()[i - 1]);
                }
            }
        }
        if acceptance_ok(refs) {
            assert(prefixed_id(refs[0], "AC-"@) || prefixed_id(refs[0], "ACC-"@));
            assert forall|i: int| 0 <= i < refs.drop_first().len() implies prefixed_id(#[trigger] refs.drop_first()[i], "AC-"@)
                || prefixed_id(refs.drop_first()[i], "ACC-"@) by {
                assert(refs.drop_first()[i] == refs[i + 1]);
            }
        }
    }
}

proof fn lemma_check_error(c: CheckInput, seen: Set<Seq<char>>)
    ensures
        check_error(c, seen) is None <==> check_ok(c) && !(c.id matches Some(id) && seen.contains(id@)),
{
    lemma_refs_ok(str_views(c.evidence_refs@), "E-"@);
    lemma_refs_ok(str_views(c.requirement_refs@), "REQ-"@);
    lemma_acceptance_ok(str_views(c.acceptance_refs@));
    lemma_refs_ok(str_views(c.task_refs@), "TASK-"@);
}

proof fn lemma_check_errors(checks: Seq<CheckInput>, seen: Set<Seq<char>>)
    ensures
        first_check_error(checks, seen) is None <==> (forall|i: int| 0 <= i < checks.len() ==> check_ok(
            #[trigger] checks[i],
        )) && check_ids_fresh(checks, seen),
    decreases checks.len(),
{
    if checks.len() > 0 {
        let c = checks[0];
        let rest = checks.drop_first();
        let seen2 = match c.id {
            Some(id) => seen.insert(id@),
            None => seen,
        };
        lemma_check_error(c, seen);
        lemma_check_errors(rest, seen2);
        assert forall|i: int| 0 < i < checks.len() implies checks[i] == rest[i - 1] by {}
        let all_ok = forall|i: int| 0 <= i < checks.len() ==> check_ok(#[trigger] checks[i]);
        if first_check_error(checks, seen) is None {
            assert forall|i: int| 0 <= i < checks.len() implies check_ok(#[trigger] checks[i]) by {
                if i > 0 {
                    assert(check_ok(rest[i - 1]));
                }
            }
            assert forall|i: int, id: Seq<char>| 0 <= i < checks.len() && #[trigger] has_check_id(checks[i], id) implies !seen.contains(
                id,
            ) by {
                if i > 0 {
                    assert(has_check_id(rest[i - 1], id));
                }
            }
            assert forall|i: int, j: int, id: Seq<char>|
                0 <= i < j < checks.len() && #[trigger] has_check_id(checks[i], id) implies !(#[trigger] has_check_id(
                checks[j],
                id,
            )) by {
                if has_check_id(checks[j], id) {
                    assert(has_check_id(rest[j - 1], id));
                    if i > 0 {
                        assert(has_check_id(rest[i - 1], id));
                    } else {
                        assert(seen2.contains(id));
                    }
                }
            }
        }
        if all_ok && check_ids_fresh(checks, seen) {
            assert(check_ok(c));
            match c.id {
                Some(id) => {
                    assert(has_check_id(checks[0], id@));
                },
                None => {},
            }
            assert forall|i: int| 0 <= i < rest.len() implies check_ok(#[trigger] rest[i]) by {
                assert(check_ok(checks[i + 1]));
            }
            assert forall|i: int, id: Seq<char>| 0 <= i < rest.len() && #[trigger] has_check_id(rest[i], id) implies !seen2.contains(
                id,
            ) by {
                assert(has_check_id(checks[i + 1], id));
                match c.id {
                    Some(x) => {
                        if x@ == id {
                            assert(has_check_id(checks[0], id));
                        }
                    },
                    None => {},
                }
            }
            assert forall|i: int, j: int, id: Seq<char>|
                0 <= i < j < rest.len() && #[trigger] has_check_id(rest[i], id) implies !(#[trigger] has_check_id(
                rest[j],
                id,
            )) by {
                assert(has_check_id(checks[i + 1], id));
                if has_check_id(rest[j], id) {
                    assert(has_check_id(checks[j + 1], id));
                }
            }
        }
    }
}

proof fn lemma_snapshot_errors(tasks: Seq<TaskVerificationInput>, seen: Set<Seq<char>>)
    ensures
        first_snapshot_error(tasks, seen) is None <==> (forall|i: int| 0 <= i < tasks.len() ==> snapshot_ok(
            #[trigger] tasks[i],
        )) && snapshot_ids_fresh(tasks, seen),
    decreases tasks.len(),
{
    if tasks.len() > 0 {
        let t = tasks[0];
        let rest = tasks.drop_first();
        let seen2 = seen.insert(t.id@);
        lemma_refs_ok(str_views(t.evidence_refs@), "E-"@);
        lemma_snapshot_errors(rest, seen2);
        assert forall|i: int| 0 < i < tasks.len() implies tasks[i] == rest[i - 1] by {}
        let all_ok = forall|i: int| 0 <= i < tasks.len() ==> snapshot_ok(#[trigger] tasks[i]);
        if first_snapshot_error(tasks, seen) is None {
            assert forall|i: int| 0 <= i < tasks.len() implies snapshot_ok(#[trigger] tasks[i]) by {
                if i > 0 {
                    assert(snapshot_ok(rest[i - 1]));
                }
            }
            assert forall|i: int| 0 <= i < tasks.len() implies !seen.contains((#[trigger] tasks[i]).id@) by {
                if i > 0 {
                    assert(!seen2.contains(rest[i - 1].id@));
                }
            }
            assert forall|i: int, j: int| 0 <= i < j < tasks.len() implies (#[trigger] tasks[i]).id@ != (
            #[trigger] tasks[j]).id@ by {
                assert(!seen2.contains(rest[j - 1].id@));
                if i > 0 {
                    assert(rest[i - 1].id@ != rest[j - 1].id@);
                }
            }
        }
        if all_ok && snapshot_ids_fresh(tasks, seen) {
            assert(snapshot_ok(t));
            assert(!seen.contains(tasks[0].id@));
            assert forall|i: int| 0 <= i < rest.len() implies snapshot_ok(#[trigger] rest[i]) by {
                assert(snapshot_ok(tasks[i + 1]));
            }
            assert forall|i: int| 0 <= i < rest.len() implies !seen2.contains((#[trigger] rest[i]).id@) by {
                assert(!seen.contains(tasks[i + 1].id@));
                assert(tasks[0].id@ != tasks[i + 1].id@);
            }
            assert forall|i: int, j: int| 0 <= i < j < rest.len() implies (#[trigger] rest[i]).id@ != (
            #[trigger] rest[j]).id@ by {
                assert(tasks[i + 1].id@ != tasks[j + 1].id@);
            }
        }
    }
}

/// Verification evidence is accepted exactly when its result word is
/// known, it has at least one check, every check has a name, a known
/// status, a `VERIFY-` id if any and well-prefixed references, no two
/// checks share an id, and every task snapshot has a `TASK-` id of its
/// own, a known status and `E-` evidence references.
pub proof fn evidence_accepted_iff_well_formed(v: VerificationInput)
    ensures
        verification_error(v) is None <==> evidence_ok(v),
{
    lemma_check_errors(v.checks@, Set::empty());
    lemma_snapshot_errors(v.tasks@, Set::empty());
}

fn bad_ref(refs: &Vec<String>, prefix: &str) -> (r: Option<String>)
    ensures
        opt_seq(r) == first_bad_ref(str_views(refs@), prefix@),
{
    let ghost rv = str_views(refs@);
    let mut i: usize = 0;
    assert(rv.skip(0) =~= rv);
    while i < refs.len()
        invariant
            i <= rv.len(),
            rv == str_views(refs@),
            first_bad_ref(rv, prefix@) == first_bad_ref(rv.skip(i as int), prefix@),
        decreases rv.len() - i,
    {
        proof {
            assert(rv.skip(i as int)[0] == refs@[i as int]@);
            assert(rv.skip(i as int).drop_first() =~= rv.skip(i + 1));
        }
        if !is_prefixed_id(refs[i].as_str(), prefix) {
            return Some(refs[i].clone());
        }
        i = i + 1;
    }
    None
}

fn bad_acceptance(refs: &Vec<String>) -> (r: Option<String>)
    ensures
        opt_seq(r) == first_bad_acceptance(str_views(refs@)),
{
    let ghost rv = str_views(refs@);
    let mut i: usize = 0;
    assert(rv.skip(0) =~= rv);
    while i < refs.len()
        invariant
            i <= rv.len(),
            rv == str_views(refs@),
            first_bad_acceptance(rv) == first_bad_acceptance(rv.skip(i as int)),
        decreases rv.len() - i,
    {
        proof {
            assert(rv.skip(i as int)[0] == refs@[i as int]@);
            assert(rv.skip(i as int).drop_first() =~= rv.skip(i + 1));
        }
        if !is_prefixed_id(refs[i].as_str(), "AC-") && !is_prefixed_id(refs[i].as_str(), "ACC-") {
            return Some(refs[i].clone());
        }
        i = i + 1;
    }
    None
}

fn with_code(code: &str, detail: &str) -> (r: String)
    ensures
        r@ == code@ + detail@,
{
    let mut m = String::from_str(code);
    m.append(detail);
    m
}

fn blank_str(s: &str) -> (r: bool)
    ensures
        r == is_blank(s@),
{
    let v = chars_of(s);
    crate::text::blank(v.as_slice())
}

fn check_error_of(c: &CheckInput, seen: &Vec<Vec<char>>) -> (r: Option<String>)
    ensures
        opt_seq(r) == check_error(*c, views(seen@).to_set()),
{
    if blank_str(c.name.as_str()) || blank_str(c.status.as_str()) {
        return Some(String::from_str("SDD_INVALID_VERIFICATION_CHECK: name and status are required."));
    }
    match &c.id {
        Some(id) => {
            if !is_prefixed_id(id.as_str(), "VERIFY-") {
                return Some(with_code("SDD_INVALID_VERIFICATION_ID: ", id.as_str()));
            }
            let idc = chars_of(id.as_str());
            if crate::sdd_check::list_contains(seen, idc.as_slice()) {
                return Some(with_code("SDD_DUPLICATE_ID: ", id.as_str()));
            }
        },
        None => {},
    }
    let names = ["pass", "passed", "fail", "failed", "skip", "skipped", "blocked"];
    assert(names@[0] == "pass" && names@[1] == "passed" && names@[2] == "fail" && names@[3] == "failed"
        && names@[4] == "skip" && names@[5] == "skipped" && names@[6] == "blocked");
    if !lower_in_options(c.status.as_str(), names.as_slice(), Ghost(check_statuses())) {
        return Some(with_code("SDD_INVALID_VERIFICATION_STATUS: ", c.status.as_str()));
    }
    match bad_ref(&c.evidence_refs, "E-") {
        Some(r) => {
            return Some(with_code("SDD_INVALID_EVIDENCE_REFERENCE: ", r.as_str()));
        },
        None => {},
    }
    match bad_ref(&c.requirement_refs, "REQ-") {
        Some(r) => {
            return Some(with_code("SDD_INVALID_REQUIREMENT_REFERENCE: ", r.as_str()));
        },
        None => {},
    }
    match bad_acceptance(&c.acceptance_refs) {
        Some(r) => {
            return Some(with_code("SDD_INVALID_ACCEPTANCE_REFERENCE: ", r.as_str()));
        },
        None => {},
    }
    match bad_ref(&c.task_refs, "TASK-") {
        Some(r) => {
            return Some(with_code("SDD_INVALID_TASK_REFERENCE: ", r.as_str()));
        },
        None => {},
    }
    None
}

fn snapshot_error_of(t: &TaskVerificationInput, seen: &Vec<Vec<char>>) -> (r: Option<String>)
    ensures
        opt_seq(r) == snapshot_error(*t, views(seen@).to_set()),
{
    if !is_prefixed_id(t.id.as_str(), "TASK-") {
        return Some(with_code("SDD_INVALID_TASK_REFERENCE: ", t.id.as_str()));
    }
    let idc = chars_of(t.id.as_str());
    if crate::sdd_check::list_contains(seen, idc.as_slice()) {
        return Some(with_code("SDD_DUPLICATE_ID: ", t.id.as_str()));
    }
    let names = ["todo", "doing", "blocked", "done", "dropped"];
    assert(names@[0] == "todo" && names@[1] == "doing" && names@[2] == "blocked" && names@[3] == "done"
        && names@[4] == "dropped");
    if !lower_in_options(t.status.as_str(), names.as_slice(), Ghost(task_statuses())) {
        return Some(with_code("SDD_INVALID_TASK_STATUS: ", t.status.as_str()));
    }
    match bad_ref(&t.evidence_refs, "E-") {
        Some(r) => Some(with_code("SDD_INVALID_EVIDENCE_REFERENCE: ", r.as_str())),
        None => None,
    }
}

/// Validates the shape of verification evidence: a known result, at least
/// one check, well-formed and unique identifiers, known statuses and
/// well-formed references.
pub fn validate_verification(v: &VerificationInput) -> (r: Result<(), SddError>)
    ensures
        match verification_error(*v) {
            Some(m) => r matches Err(SddError::Invalid(e)) && e@ == m,
            None => r is Ok,
        },
{
    let names = ["pass", "passed", "fail", "failed", "needs_fix"];
    assert(names@[0] == "pass" && names@[1] == "passed" && names@[2] == "fail" && names@[3] == "failed"
        && names@[4] == "needs_fix");
    if !lower_in_options(v.result.as_str(), names.as_slice(), Ghost(verification_results())) {
        return Err(SddError::Invalid(with_code("SDD_INVALID_VERIFICATION_RESULT: ", v.result.as_str())));
    }
    if v.checks.len() == 0 {
        return Err(
            SddError::Invalid(
                String::from_str(
                    "SDD_VERIFICATION_EVIDENCE_REQUIRED: at least one check is required when verification input is supplied.",
                ),
            ),
        );
    }
    let ghost cs = v.checks@;
    let mut seen: Vec<Vec<char>> = Vec::new();
    assert(views(seen@).to_set() =~= Set::<Seq<char>>::empty());
    assert(cs.skip(0) =~= cs);
    let mut i: usize = 0;
    while i < v.checks.len()
        invariant
            i <= cs.len(),
            cs == v.checks@,
            lower_in(v.result@, verification_results()),
            cs.len() > 0,
            crate::text::strictly_sorted(views(seen@)),
            first_check_error(cs, Set::empty()) == first_check_error(cs.skip(i as int), views(seen@).to_set()),
        decreases cs.len() - i,
    {
        let c = &v.checks[i];
        proof {
            assert(cs.skip(i as int)[0] == cs[i as int]);
            assert(cs.skip(i as int).drop_first() =~= cs.skip(i + 1));
        }
        match check_error_of(c, &seen) {
            Some(m) => {
                return Err(SddError::Invalid(m));
            },
            None => {},
        }
        match &c.id {
            Some(id) => {
                crate::text::insert_sorted(&mut seen, chars_of(id.as_str()));
            },
            None => {},
        }
        i = i + 1;
    }
    assert(cs.skip(i as int).len() == 0);
    let ghost ts = v.tasks@;
    let mut seen_tasks: Vec<Vec<char>> = Vec::new();
    assert(views(seen_tasks@).to_set() =~= Set::<Seq<char>>::empty());
    assert(ts.skip(0) =~= ts);
    let mut j: usize = 0;
    while j < v.tasks.len()
        invariant
            j <= ts.len(),
            ts == v.tasks@,
            lower_in(v.result@, verification_results()),
            v.checks@.len() > 0,
            first_check_error(v.checks@, Set::empty()) is None,
            crate::text::strictly_sorted(views(seen_tasks@)),
            first_snapshot_error(ts, Set::empty()) == first_snapshot_error(ts.skip(j as int), views(seen_tasks@).to_set()),
        decreases ts.len() - j,
    {
        let t = &v.tasks[j];
        proof {
            assert(ts.skip(j as int)[0] == ts[j as int]);
            assert(ts.skip(j as int).drop_first() =~= ts.skip(j + 1));
        }
        match snapshot_error_of(t, &seen_tasks) {
            Some(m) => {
                return Err(SddError::Invalid(m));
            },
            None => {},
        }
        crate::text::insert_sorted(&mut seen_tasks, chars_of(t.id.as_str()));
        j = j + 1;
    }
    Ok(())
}


// ---------------------------------------------------------------------------
// Evidence against the change
// ---------------------------------------------------------------------------
/// Concatenation of lists of identifiers.
pub open spec fn flat(xs: Seq<Seq<Seq<char>>>) -> Seq<Seq<char>>
    decreases xs.len(),
{
    if xs.len() == 0 {
        seq![]
    } else {
        flat(xs.drop_last()) + xs.last()
    }
}

pub open spec fn acceptance_lists(reqs: Seq<RequirementDoc>) -> Seq<Seq<Seq<char>>> {
    Seq::new(reqs.len(), |i: int| str_views(reqs[i].acceptance_ids@))
}

pub open spec fn check_acceptance_lists(checks: Seq<CheckInput>) -> Seq<Seq<Seq<char>>> {
    Seq::new(checks.len(), |i: int| str_views(checks[i].acceptance_refs@))
}

pub open spec fn check_task_lists(checks: Seq<CheckInput>) -> Seq<Seq<Seq<char>>> {
    Seq::new(checks.len(), |i: int| str_views(checks[i].task_refs@))
}

pub open spec fn snapshot_ids(snaps: Seq<TaskVerificationInput>) -> Seq<Seq<char>> {
    Seq::new(snaps.len(), |i: int| snaps[i].id@)
}

/// Issues for the references `refs` of `label` that are not among `known`.
pub open spec fn missing_refs(label: Seq<char>, refs: Seq<Seq<char>>, known: Seq<Seq<char>>, mid: Seq<char>) -> Seq<Seq<char>>
    decreases refs.len(),
{
    if refs.len() == 0 {
        seq![]
    } else {
        missing_refs(label, refs.drop_last(), known, mid) + issue_if(
            !known.contains(refs.last()),
            label + mid + refs.last(),
        )
    }
}

/// Snapshot issues of the Markdown tasks `ts`: a missing snapshot, or one
/// whose status differs.
pub open spec fn task_snapshot_issues(ts: Seq<TaskDoc>, snaps: Seq<TaskVerificationInput>) -> Seq<Seq<char>>
    decreases ts.len(),
{
    if ts.len() == 0 {
        seq![]
    } else {
        let t = ts.last();
        task_snapshot_issues(ts.drop_last(), snaps) + match crate::sdd_check::last_index(snapshot_ids(snaps), t.id@) {
            Some(j) => issue_if(
                !eq_ignore_case(snaps[j].status@, t.status@),
                t.id@ + " 状态快照为 "@ + snaps[j].status@ + "，Markdown 当前状态为 "@ + t.status@,
            ),
            None => seq!["验证证据缺少 "@ + t.id@ + " 状态快照"@],
        }
    }
}

/// Issues of the snapshots `ss`: unknown tasks and unregistered evidence.
pub open spec fn snapshot_issues(ss: Seq<TaskVerificationInput>, tasks: Seq<TaskDoc>, evidence: Seq<Seq<char>>) -> Seq<Seq<char>>
    decreases ss.len(),
{
    if ss.len() == 0 {
        seq![]
    } else {
        let s = ss.last();
        snapshot_issues(ss.drop_last(), tasks, evidence) + issue_if(
            !task_ids(tasks).contains(s.id@),
            "状态快照引用不存在的 "@ + s.id@,
        ) + missing_refs(s.id@, str_views(s.evidence_refs@), evidence, " 引用了未登记的证据 "@)
    }
}

/// How a check is named in issues: its identifier, else its name.
pub open spec fn check_label(c: CheckInput) -> Seq<char> {
    match c.id {
        Some(id) => id@,
        None => c.name@,
    }
}

/// Issues of one check against the change.
pub open spec fn check_issues(c: CheckInput, s: ChangeStructure) -> Seq<Seq<char>> {
    let label = check_label(c);
    issue_if(c.acceptance_refs@.len() == 0, label + " 缺少 acceptanceRefs"@) + issue_if(
        s.has_tasks && c.task_refs@.len() == 0,
        label + " 缺少 taskRefs"@,
    ) + missing_refs(
        label,
        str_views(c.requirement_refs@),
        crate::sdd_check::requirement_ids(s.requirements@),
        " 引用了不存在的 "@,
    ) + missing_refs(
        label,
        str_views(c.acceptance_refs@),
        flat(acceptance_lists(s.requirements@)),
        " 引用了不存在的 "@,
    ) + missing_refs(label, str_views(c.task_refs@), task_ids(s.tasks@), " 引用了不存在的 "@)
        + missing_refs(label, str_views(c.evidence_refs@), str_views(s.evidence_ids@), " 引用了未登记的证据 "@)
}

pub open spec fn checks_issues(cs: Seq<CheckInput>, s: ChangeStructure) -> Seq<Seq<char>>
    decreases cs.len(),
{
    if cs.len() == 0 {
        seq![]
    } else {
        checks_issues(cs.drop_last(), s) + check_issues(cs.last(), s)
    }
}

/// Must acceptance criteria that no check references.
pub open spec fn unchecked_acceptances(rs: Seq<RequirementDoc>, checked: Seq<Seq<char>>) -> Seq<Seq<char>>
    decreases rs.len(),
{
    if rs.len() == 0 {
        seq![]
    } else {
        let r = rs.last();
        unchecked_acceptances(rs.drop_last(), checked) + if eq_ignore_case(r.priority@, "must"@) {
            missing_refs(seq![], str_views(r.acceptance_ids@), checked, "验证证据未覆盖 must 验收 "@)
        } else {
            seq![]
        }
    }
}

/// Must tasks, not dropped, that no check references.
pub open spec fn unchecked_tasks(ts: Seq<TaskDoc>, checked: Seq<Seq<char>>) -> Seq<Seq<char>>
    decreases ts.len(),
{
    if ts.len() == 0 {
        seq![]
    } else {
        let t = ts.last();
        unchecked_tasks(ts.drop_last(), checked) + issue_if(
            eq_ignore_case(t.priority@, "must"@) && !eq_ignore_case(t.status@, "dropped"@)
                && !checked.contains(t.id@),
            "验证 checks 未引用 must 任务 "@ + t.id@,
        )
    }
}

pub open spec fn all_checks_pass(cs: Seq<CheckInput>) -> bool {
    forall|i: int| 0 <= i < cs.len() ==> lower_in((#[trigger] cs[i]).status@, passing())
}

/// The issues found when evidence `v` is held against the change `s`.
pub open spec fn verification_issues(v: VerificationInput, s: ChangeStructure) -> Seq<Seq<char>> {
    let requested_pass = lower_in(v.result@, passing());
    issue_if(
        requested_pass && !all_checks_pass(v.checks@),
        "SDD_VERIFICATION_RESULT_MISMATCH: pass requires every check to pass."@,
    ) + task_snapshot_issues(s.tasks@, v.tasks@) + snapshot_issues(v.tasks@, s.tasks@, str_views(s.evidence_ids@))
        + checks_issues(v.checks@, s) + if requested_pass {
        unchecked_acceptances(s.requirements@, flat(check_acceptance_lists(v.checks@))) + unchecked_tasks(
            s.tasks@,
            flat(check_task_lists(v.checks@)),
        )
    } else {
        seq![]
    }
}

fn append_missing(
    issues: &mut Vec<String>,
    label: &str,
    refs: &Vec<String>,
    known: &Vec<Vec<char>>,
    mid: &str,
)
    ensures
        str_views(final(issues)@) == str_views(old(issues)@) + missing_refs(label@, str_views(refs@), views(known@), mid@),
{
    let ghost base = str_views(issues@);
    let ghost rv = str_views(refs@);
    let mut k: usize = 0;
    assert(rv.take(0) =~= Seq::<Seq<char>>::empty());
    while k < refs.len()
        invariant
            k <= rv.len(),
            rv == str_views(refs@),
            str_views(issues@) == base + missing_refs(label@, rv.take(k as int), views(known@), mid@),
        decreases rv.len() - k,
    {
        let r = &refs[k];
        proof {
            assert(rv.take(k + 1).drop_last() =~= rv.take(k as int));
            assert(rv.take(k + 1).last() == r@);
        }
        let ghost before = str_views(issues@);
        let rc = chars_of(r.as_str());
        if !crate::sdd_check::list_contains(known, rc.as_slice()) {
            let mut m = String::from_str(label);
            m.append(mid);
            m.append(r.as_str());
            issues.push(m);
        }
        proof {
            assert(str_views(issues@) =~= before + issue_if(!views(known@).contains(r@), label@ + mid@ + r@));
        }
        k = k + 1;
    }
    assert(rv.take(rv.len() as int) =~= rv);
}

/// The identifiers of all the lists, in order.
fn flatten_lists(lists: &Vec<Vec<Vec<char>>>) -> (r: Vec<Vec<char>>)
    ensures
        views(r@) == flat(crate::sdd_check::dep_views(lists@)),
{
    let ghost lv = crate::sdd_check::dep_views(lists@);
    let mut out: Vec<Vec<char>> = Vec::new();
    let mut i: usize = 0;
    assert(lv.take(0) =~= Seq::<Seq<Seq<char>>>::empty());
    while i < lists.len()
        invariant
            i <= lv.len(),
            lv == crate::sdd_check::dep_views(lists@),
            views(out@) == flat(lv.take(i as int)),
        decreases lv.len() - i,
    {
        let l = &lists[i];
        let ghost start = views(out@);
        let mut k: usize = 0;
        assert(start + views(l@).take(0) =~= start);
        while k < l.len()
            invariant
                k <= l@.len(),
                views(out@) == start + views(l@).take(k as int),
            decreases l@.len() - k,
        {
            let ghost before = views(out@);
            let item = crate::text::slice_chars(l[k].as_slice(), 0, l[k].len());
            assert(item@ =~= l@[k as int]@);
            out.push(item);
            proof {
                assert(views(out@) =~= before.push(l@[k as int]@));
                assert(views(l@).take(k + 1) =~= views(l@).take(k as int).push(l@[k as int]@));
                assert(views(out@) =~= start + views(l@).take(k + 1));
            }
            k = k + 1;
        }
        proof {
            assert(views(l@).take(l@.len() as int) =~= views(l@));
            assert(lv.take(i + 1).drop_last() =~= lv.take(i as int));
            assert(lv.take(i + 1).last() == views(l@));
        }
        i = i + 1;
    }
    assert(lv.take(lv.len() as int) =~= lv);
    out
}

fn string_lists_of(lists: &Vec<Vec<String>>) -> (r: Vec<Vec<Vec<char>>>)
    ensures
        crate::sdd_check::dep_views(r@) == Seq::new(lists@.len(), |i: int| str_views(lists@[i]@)),
{
    let mut r: Vec<Vec<Vec<char>>> = Vec::new();
    let mut i: usize = 0;
    while i < lists.len()
        invariant
            i <= lists@.len(),
            r@.len() == i,
            forall|j: int| 0 <= j < i ==> views((#[trigger] r@[j])@) == str_views(lists@[j]@),
        decreases lists@.len() - i,
    {
        r.push(crate::sdd_check::char_lists_of(&lists[i]));
        i = i + 1;
    }
    assert(crate::sdd_check::dep_views(r@) =~= Seq::new(lists@.len(), |i: int| str_views(lists@[i]@)));
    r
}


fn acceptance_vectors(reqs: &Vec<RequirementDoc>) -> (r: Vec<Vec<char>>)
    ensures
        views(r@) == flat(acceptance_lists(reqs@)),
{
    let mut lists: Vec<Vec<String>> = Vec::new();
    let mut i: usize = 0;
    while i < reqs.len()
        invariant
            i <= reqs@.len(),
            lists@.len() == i,
            forall|j: int| 0 <= j < i ==> (#[trigger] lists@[j])@ == reqs@[j].acceptance_ids@,
        decreases reqs@.len() - i,
    {
        lists.push(reqs[i].acceptance_ids.clone());
        i = i + 1;
    }
    let cl = string_lists_of(&lists);
    assert(Seq::new(lists@.len(), |i: int| str_views(lists@[i]@)) =~= acceptance_lists(reqs@));
    flatten_lists(&cl)
}

fn check_ref_vectors(checks: &Vec<CheckInput>, tasks_refs: bool) -> (r: Vec<Vec<char>>)
    ensures
        views(r@) == if tasks_refs {
            flat(check_task_lists(checks@))
        } else {
            flat(check_acceptance_lists(checks@))
        },
{
    let mut lists: Vec<Vec<String>> = Vec::new();
    let mut i: usize = 0;
    while i < checks.len()
        invariant
            i <= checks@.len(),
            lists@.len() == i,
            forall|j: int| 0 <= j < i ==> (#[trigger] lists@[j])@ == if tasks_refs {
                checks@[j].task_refs@
            } else {
                checks@[j].acceptance_refs@
            },
        decreases checks@.len() - i,
    {
        if tasks_refs {
            lists.push(checks[i].task_refs.clone());
        } else {
            lists.push(checks[i].acceptance_refs.clone());
        }
        i = i + 1;
    }
    let cl = string_lists_of(&lists);
    if tasks_refs {
        assert(Seq::new(lists@.len(), |i: int| str_views(lists@[i]@)) =~= check_task_lists(checks@));
    } else {
        assert(Seq::new(lists@.len(), |i: int| str_views(lists@[i]@)) =~= check_acceptance_lists(checks@));
    }
    flatten_lists(&cl)
}

fn passes(status: &str) -> (r: bool)
    ensures
        r == lower_in(status@, passing()),
{
    let names = ["pass", "passed"];
    assert(names@[0] == "pass" && names@[1] == "passed");
    lower_in_options(status, names.as_slice(), Ghost(passing()))
}

fn check_snapshots_of_tasks(issues: &mut Vec<String>, tasks: &Vec<TaskDoc>, snaps: &Vec<TaskVerificationInput>)
    ensures
        str_views(final(issues)@) == str_views(old(issues)@) + task_snapshot_issues(tasks@, snaps@),
{
    let ghost base = str_views(issues@);
    let mut ids: Vec<Vec<char>> = Vec::new();
    let mut i: usize = 0;
    while i < snaps.len()
        invariant
            i <= snaps@.len(),
            ids@.len() == i,
            forall|j: int| 0 <= j < i ==> (#[trigger] ids@[j])@ == snaps@[j].id@,
        decreases snaps@.len() - i,
    {
        ids.push(chars_of(snaps[i].id.as_str()));
        i = i + 1;
    }
    assert(views(ids@) =~= snapshot_ids(snaps@));
    let mut t: usize = 0;
    assert(tasks@.take(0) =~= Seq::<TaskDoc>::empty());
    while t < tasks.len()
        invariant
            t <= tasks@.len(),
            views(ids@) == snapshot_ids(snaps@),
            str_views(issues@) == base + task_snapshot_issues(tasks@.take(t as int), snaps@),
        decreases tasks@.len() - t,
    {
        let task = &tasks[t];
        proof {
            assert(tasks@.take(t + 1).drop_last() =~= tasks@.take(t as int));
            assert(tasks@.take(t + 1).last() == tasks@[t as int]);
        }
        let ghost before = str_views(issues@);
        let idc = chars_of(task.id.as_str());
        match crate::sdd_check::find_last_id(&ids, idc.as_slice()) {
            Some(j) => {
                let same = eq_ignore_case_str(chars_of(snaps[j].status.as_str()).as_slice(), task.status.as_str());
                if !same {
                    let mut m = task.id.clone();
                    m.append(" 状态快照为 ");
                    m.append(snaps[j].status.as_str());
                    m.append("，Markdown 当前状态为 ");
                    m.append(task.status.as_str());
                    issues.push(m);
                }
                proof {
                    assert(str_views(issues@) =~= before + issue_if(
                        !eq_ignore_case(snaps@[j as int].status@, task.status@),
                        task.id@ + " 状态快照为 "@ + snaps@[j as int].status@ + "，Markdown 当前状态为 "@ + task.status@,
                    ));
                }
            },
            None => {
                let mut m = String::from_str("验证证据缺少 ");
                m.append(task.id.as_str());
                m.append(" 状态快照");
                issues.push(m);
                proof {
                    assert(str_views(issues@) =~= before + seq!["验证证据缺少 "@ + task.id@ + " 状态快照"@]);
                }
            },
        }
        t = t + 1;
    }
    assert(tasks@.take(tasks@.len() as int) =~= tasks@);
}

fn check_snapshots(
    issues: &mut Vec<String>,
    snaps: &Vec<TaskVerificationInput>,
    tasks: &Vec<TaskDoc>,
    task_list: &Vec<Vec<char>>,
    evidence: &Vec<Vec<char>>,
)
    requires
        views(task_list@) == task_ids(tasks@),
    ensures
        str_views(final(issues)@) == str_views(old(issues)@) + snapshot_issues(snaps@, tasks@, views(evidence@)),
{
    let ghost base = str_views(issues@);
    let mut i: usize = 0;
    assert(snaps@.take(0) =~= Seq::<TaskVerificationInput>::empty());
    while i < snaps.len()
        invariant
            i <= snaps@.len(),
            views(task_list@) == task_ids(tasks@),
            str_views(issues@) == base + snapshot_issues(snaps@.take(i as int), tasks@, views(evidence@)),
        decreases snaps@.len() - i,
    {
        let s = &snaps[i];
        proof {
            assert(snaps@.take(i + 1).drop_last() =~= snaps@.take(i as int));
            assert(snaps@.take(i + 1).last() == snaps@[i as int]);
        }
        let ghost before = str_views(issues@);
        let idc = chars_of(s.id.as_str());
        if !crate::sdd_check::list_contains(task_list, idc.as_slice()) {
            let mut m = String::from_str("状态快照引用不存在的 ");
            m.append(s.id.as_str());
            issues.push(m);
        }
        let ghost mid = str_views(issues@);
        assert(mid =~= before + issue_if(!task_ids(tasks@).contains(s.id@), "状态快照引用不存在的 "@ + s.id@));
        append_missing(issues, s.id.as_str(), &s.evidence_refs, evidence, " 引用了未登记的证据 ");
        i = i + 1;
    }
    assert(snaps@.take(snaps@.len() as int) =~= snaps@);
}

fn check_one(
    issues: &mut Vec<String>,
    c: &CheckInput,
    has_tasks: bool,
    req_list: &Vec<Vec<char>>,
    acc_list: &Vec<Vec<char>>,
    task_list: &Vec<Vec<char>>,
    evidence: &Vec<Vec<char>>,
    Ghost(s): Ghost<ChangeStructure>,
)
    requires
        has_tasks == s.has_tasks,
        views(req_list@) == crate::sdd_check::requirement_ids(s.requirements@),
        views(acc_list@) == flat(acceptance_lists(s.requirements@)),
        views(task_list@) == task_ids(s.tasks@),
        views(evidence@) == str_views(s.evidence_ids@),
    ensures
        str_views(final(issues)@) == str_views(old(issues)@) + check_issues(*c, s),
{
    let ghost base = str_views(issues@);
    let label = match &c.id {
        Some(id) => id.clone(),
        None => c.name.clone(),
    };
    if c.acceptance_refs.len() == 0 {
        let mut m = label.clone();
        m.append(" 缺少 acceptanceRefs");
        issues.push(m);
    }
    let ghost s1 = str_views(issues@);
    assert(s1 =~= base + issue_if(c.acceptance_refs@.len() == 0, check_label(*c) + " 缺少 acceptanceRefs"@));
    if has_tasks && c.task_refs.len() == 0 {
        let mut m = label.clone();
        m.append(" 缺少 taskRefs");
        issues.push(m);
    }
    let ghost s2 = str_views(issues@);
    assert(s2 =~= s1 + issue_if(s.has_tasks && c.task_refs@.len() == 0, check_label(*c) + " 缺少 taskRefs"@));
    append_missing(issues, label.as_str(), &c.requirement_refs, req_list, " 引用了不存在的 ");
    append_missing(issues, label.as_str(), &c.acceptance_refs, acc_list, " 引用了不存在的 ");
    append_missing(issues, label.as_str(), &c.task_refs, task_list, " 引用了不存在的 ");
    append_missing(issues, label.as_str(), &c.evidence_refs, evidence, " 引用了未登记的证据 ");
    proof {
        assert(str_views(issues@) =~= base + check_issues(*c, s));
    }
}

fn check_pass_coverage(
    issues: &mut Vec<String>,
    reqs: &Vec<RequirementDoc>,
    tasks: &Vec<TaskDoc>,
    checked_accs: &Vec<Vec<char>>,
    checked_tasks: &Vec<Vec<char>>,
)
    ensures
        str_views(final(issues)@) == str_views(old(issues)@) + unchecked_acceptances(reqs@, views(checked_accs@))
            + unchecked_tasks(tasks@, views(checked_tasks@)),
{
    let ghost base = str_views(issues@);
    let mut r: usize = 0;
    assert(reqs@.take(0) =~= Seq::<RequirementDoc>::empty());
    while r < reqs.len()
        invariant
            r <= reqs@.len(),
            str_views(issues@) == base + unchecked_acceptances(reqs@.take(r as int), views(checked_accs@)),
        decreases reqs@.len() - r,
    {
        let req = &reqs[r];
        proof {
            assert(reqs@.take(r + 1).drop_last() =~= reqs@.take(r as int));
            assert(reqs@.take(r + 1).last() == reqs@[r as int]);
        }
        let ghost before = str_views(issues@);
        if eq_ignore_case_str(chars_of(req.priority.as_str()).as_slice(), "must") {
            append_missing(issues, "", &req.acceptance_ids, checked_accs, "验证证据未覆盖 must 验收 ");
            proof {
                reveal_strlit("");
                assert(""@ =~= Seq::<char>::empty());
            }
        } else {
            assert(str_views(issues@) =~= before + Seq::<Seq<char>>::empty());
        }
        r = r + 1;
    }
    assert(reqs@.take(reqs@.len() as int) =~= reqs@);
    let ghost mid = str_views(issues@);
    let mut t: usize = 0;
    assert(tasks@.take(0) =~= Seq::<TaskDoc>::empty());
    while t < tasks.len()
        invariant
            t <= tasks@.len(),
            str_views(issues@) == mid + unchecked_tasks(tasks@.take(t as int), views(checked_tasks@)),
        decreases tasks@.len() - t,
    {
        let task = &tasks[t];
        proof {
            assert(tasks@.take(t + 1).drop_last() =~= tasks@.take(t as int));
            assert(tasks@.take(t + 1).last() == tasks@[t as int]);
        }
        let ghost before = str_views(issues@);
        let must = eq_ignore_case_str(chars_of(task.priority.as_str()).as_slice(), "must");
        let dropped = eq_ignore_case_str(chars_of(task.status.as_str()).as_slice(), "dropped");
        let idc = chars_of(task.id.as_str());
        if must && !dropped && !crate::sdd_check::list_contains(checked_tasks, idc.as_slice()) {
            let mut m = String::from_str("验证 checks 未引用 must 任务 ");
            m.append(task.id.as_str());
            issues.push(m);
        }
        proof {
            assert(str_views(issues@) =~= before + issue_if(
                eq_ignore_case(task.priority@, "must"@) && !eq_ignore_case(task.status@, "dropped"@)
                    && !views(checked_tasks@).contains(task.id@),
                "验证 checks 未引用 must 任务 "@ + task.id@,
            ));
        }
        t = t + 1;
    }
    assert(tasks@.take(tasks@.len() as int) =~= tasks@);
}

/// Holds verification evidence against the change: the result must agree
/// with the checks, every task needs a matching status snapshot, and every
/// reference must name something the change declares; a passing result
/// must also reference every must acceptance criterion and every must task.
pub fn inspect_verification(v: &VerificationInput, structure: &ChangeStructure) -> (r: Vec<String>)
    ensures
        str_views(r@) == verification_issues(*v, *structure),
{
    let mut issues: Vec<String> = Vec::new();
    let requested_pass = passes(v.result.as_str());
    let mut all_pass = true;
    let mut i: usize = 0;
    while i < v.checks.len()
        invariant
            i <= v.checks@.len(),
            all_pass == forall|j: int| 0 <= j < i ==> lower_in((#[trigger] v.checks@[j]).status@, passing()),
        decreases v.checks@.len() - i,
    {
        if !passes(v.checks[i].status.as_str()) {
            all_pass = false;
        }
        i = i + 1;
    }
    if requested_pass && !all_pass {
        issues.push(String::from_str("SDD_VERIFICATION_RESULT_MISMATCH: pass requires every check to pass."));
    }
    let ghost s1 = str_views(issues@);
    assert(s1 =~= issue_if(
        requested_pass && !all_checks_pass(v.checks@),
        "SDD_VERIFICATION_RESULT_MISMATCH: pass requires every check to pass."@,
    ));
    check_snapshots_of_tasks(&mut issues, &structure.tasks, &v.tasks);
    let (req_list, _) = crate::sdd_check::requirement_id_lists(&structure.requirements);
    let (task_list, _) = crate::sdd_check::task_id_lists(&structure.tasks);
    let evidence = crate::sdd_check::char_lists_of(&structure.evidence_ids);
    check_snapshots(&mut issues, &v.tasks, &structure.tasks, &task_list, &evidence);
    let acc_list = acceptance_vectors(&structure.requirements);
    let ghost s3 = str_views(issues@);
    let mut c: usize = 0;
    assert(v.checks@.take(0) =~= Seq::<CheckInput>::empty());
    while c < v.checks.len()
        invariant
            c <= v.checks@.len(),
            views(req_list@) == crate::sdd_check::requirement_ids(structure.requirements@),
            views(acc_list@) == flat(acceptance_lists(structure.requirements@)),
            views(task_list@) == task_ids(structure.tasks@),
            views(evidence@) == str_views(structure.evidence_ids@),
            str_views(issues@) == s3 + checks_issues(v.checks@.take(c as int), *structure),
        decreases v.checks@.len() - c,
    {
        check_one(&mut issues, &v.checks[c], structure.has_tasks, &req_list, &acc_list, &task_list, &evidence, Ghost(*structure));
        proof {
            assert(v.checks@.take(c + 1).drop_last() =~= v.checks@.take(c as int));
            assert(v.checks@.take(c + 1).last() == v.checks@[c as int]);
        }
        c = c + 1;
    }
    assert(v.checks@.take(v.checks@.len() as int) =~= v.checks@);
    let ghost s4 = str_views(issues@);
    if requested_pass {
        let checked_accs = check_ref_vectors(&v.checks, false);
        let checked_tasks = check_ref_vectors(&v.checks, true);
        check_pass_coverage(&mut issues, &structure.requirements, &structure.tasks, &checked_accs, &checked_tasks);
    }
    proof {
        if !requested_pass {
            assert(str_views(issues@) =~= s4 + Seq::<Seq<char>>::empty());
        }
        assert(str_views(issues@) =~= verification_issues(*v, *structure));
    }
    issues
}


// ---------------------------------------------------------------------------
// The verdict
// ---------------------------------------------------------------------------
pub open spec fn finished_statuses() -> Seq<Seq<char>> {
    seq!["done"@, "dropped"@]
}

/// Indices of the tasks not yet done or dropped; none when the change
/// declares no tasks.
pub open spec fn unfinished_of(tasks: Seq<TaskDoc>, has_tasks: bool) -> Seq<int>
    decreases tasks.len(),
{
    if !has_tasks || tasks.len() == 0 {
        seq![]
    } else {
        unfinished_of(tasks.drop_last(), has_tasks) + if lower_in(tasks.last().status@, finished_statuses()) {
            seq![]
        } else {
            seq![tasks.len() - 1]
        }
    }
}

/// The positions of the tasks that are neither done nor dropped.
pub fn unfinished_tasks(structure: &ChangeStructure) -> (r: Vec<usize>)
    ensures
        r@.len() == unfinished_of(structure.tasks@, structure.has_tasks).len(),
        forall|i: int| 0 <= i < r@.len() ==> r@[i] as int == #[trigger] unfinished_of(structure.tasks@, structure.has_tasks)[i],
{
    let mut r: Vec<usize> = Vec::new();
    if !structure.has_tasks {
        return r;
    }
    let ghost ts = structure.tasks@;
    let mut i: usize = 0;
    assert(ts.take(0) =~= Seq::<TaskDoc>::empty());
    while i < structure.tasks.len()
        invariant
            i <= ts.len(),
            ts == structure.tasks@,
            structure.has_tasks,
            r@.len() == unfinished_of(ts.take(i as int), true).len(),
            forall|k: int| 0 <= k < r@.len() ==> r@[k] as int == #[trigger] unfinished_of(ts.take(i as int), true)[k],
        decreases ts.len() - i,
    {
        let names = ["done", "dropped"];
        assert(names@[0] == "done" && names@[1] == "dropped");
        let finished = lower_in_options(structure.tasks[i].status.as_str(), names.as_slice(), Ghost(finished_statuses()));
        proof {
            assert(ts.take(i + 1).drop_last() =~= ts.take(i as int));
            assert(ts.take(i + 1).last() == ts[i as int]);
        }
        if !finished {
            r.push(i);
        }
        i = i + 1;
    }
    assert(ts.take(ts.len() as int) =~= ts);
    r
}

/// `任务 <id> 尚未完成：<status>` for each unfinished task.
pub open spec fn unfinished_lines(tasks: Seq<TaskDoc>, idx: Seq<int>) -> Seq<Seq<char>> {
    Seq::new(idx.len(), |k: int| "任务 "@ + tasks[idx[k]].id@ + " 尚未完成："@ + tasks[idx[k]].status@)
}

/// The structural issues of a change: its structure issues, then its
/// unfinished tasks.
pub open spec fn structural_issues_of(s: ChangeStructure) -> Seq<Seq<char>> {
    str_views(s.issues@) + unfinished_lines(s.tasks@, unfinished_of(s.tasks@, s.has_tasks))
}

/// Checks whose status is `pass` or `passed`, in any ASCII case.
pub open spec fn passed_count(cs: Seq<CheckInput>) -> nat
    decreases cs.len(),
{
    if cs.len() == 0 {
        0
    } else {
        passed_count(cs.drop_last()) + if eq_ignore_case(cs.last().status@, "passed"@) || eq_ignore_case(
            cs.last().status@,
            "pass"@,
        ) {
            1nat
        } else {
            0nat
        }
    }
}

pub open spec fn sat_sub(a: nat, b: nat) -> nat {
    if a >= b {
        (a - b) as nat
    } else {
        0
    }
}

pub open spec fn sat_add(a: nat, b: nat) -> nat {
    if a + b <= usize::MAX {
        a + b
    } else {
        usize::MAX as nat
    }
}

/// The outcome of `wiki sdd verify`.
pub struct VerifyOutcome {
    /// `pass` or `fail`.
    pub result: String,
    pub checks: usize,
    pub passed: usize,
    pub failed: usize,
    /// The change's new status: `verified` or `needs_fix`.
    pub status: String,
    /// The change's new phase: `archive` or `spec`.
    pub phase: String,
    /// The `verify.md` body.
    pub report: String,
    /// What to do next.
    pub next: String,
}

/// `(result, checks, passed, failed)` before the final structural check.
pub open spec fn raw_verdict(s: ChangeStructure, v: Option<VerificationInput>) -> (Seq<char>, nat, nat, nat) {
    let structural = structural_issues_of(s);
    let sf = structural.len() > 0;
    match v {
        Some(v) => {
            let issues = structural + verification_issues(v, s);
            let passed = passed_count(v.checks@);
            let result = if lower_in(v.result@, passing()) && issues.len() == 0 {
                "pass"@
            } else {
                "fail"@
            };
            (result, v.checks@.len(), passed, sat_add(sat_sub(v.checks@.len(), passed), if issues.len() > 0 { 1 } else { 0 }))
        },
        None => {
            let n = s.requirements@.len();
            (if sf { "fail"@ } else { "pass"@ }, n, sat_sub(n, if sf { 1 } else { 0 }), if sf { 1 } else { 0 })
        },
    }
}

pub open spec fn is_pass(result: Seq<char>) -> bool {
    eq_ignore_case(result, "pass"@) || eq_ignore_case(result, "passed"@)
}

/// Result, check count, passed and failed counts of a change; structural issues turn a pass into a fail.
pub open spec fn verdict(s: ChangeStructure, v: Option<VerificationInput>) -> (Seq<char>, nat, nat, nat) {
    let (result, checks, passed, failed) = raw_verdict(s, v);
    if structural_issues_of(s).len() > 0 && is_pass(result) {
        ("fail"@, checks, sat_sub(passed, 1), sat_add(failed, 1))
    } else {
        (result, checks, passed, failed)
    }
}

/// The report of a verification checked at `checked_at`.
pub open spec fn report_of(s: ChangeStructure, v: Option<VerificationInput>, checked_at: Seq<char>) -> Seq<char> {
    let structural = structural_issues_of(s);
    let sf = structural.len() > 0;
    match v {
        Some(v) => crate::sdd_render::evidence_report(checked_at, v, sf, structural + verification_issues(v, s)),
        None => crate::sdd_render::structure_report(
            checked_at,
            raw_verdict(s, None).0,
            s.requirements@.len(),
            s.tasks@.len(),
            s.has_tasks,
            sf,
            structural,
        ),
    }
}

pub open spec fn opt_input(v: Option<&VerificationInput>) -> Option<VerificationInput> {
    match v {
        Some(x) => Some(*x),
        None => None,
    }
}

/// Counts the checks that passed.
fn count_passed(checks: &Vec<CheckInput>) -> (n: usize)
    ensures
        n == passed_count(checks@),
        n <= checks@.len(),
{
    let mut n: usize = 0;
    let mut i: usize = 0;
    assert(checks@.take(0) =~= Seq::<CheckInput>::empty());
    while i < checks.len()
        invariant
            i <= checks@.len(),
            n == passed_count(checks@.take(i as int)),
            n <= i,
        decreases checks@.len() - i,
    {
        let st = chars_of(checks[i].status.as_str());
        proof {
            assert(checks@.take(i + 1).drop_last() =~= checks@.take(i as int));
            assert(checks@.take(i + 1).last() == checks@[i as int]);
        }
        if eq_ignore_case_str(st.as_slice(), "passed") || eq_ignore_case_str(st.as_slice(), "pass") {
            n = n + 1;
        }
        i = i + 1;
    }
    assert(checks@.take(checks@.len() as int) =~= checks@);
    n
}

fn structural_issue_list(s: &ChangeStructure) -> (r: Vec<String>)
    ensures
        str_views(r@) == structural_issues_of(*s),
{
    let mut r = s.issues.clone();
    assert(str_views(r@) == str_views(s.issues@)) by {
        assert(r@ =~= s.issues@);
    }
    let idx = unfinished_tasks(s);
    let ghost u = unfinished_of(s.tasks@, s.has_tasks);
    let ghost base = str_views(r@);
    proof {
        assert forall|k: int| 0 <= k < u.len() implies 0 <= #[trigger] u[k] < s.tasks@.len() by {
            lemma_unfinished_bounds(s.tasks@, s.has_tasks, k);
        }
    }
    let mut k: usize = 0;
    while k < idx.len()
        invariant
            k <= idx@.len(),
            idx@.len() == u.len(),
            forall|m: int| 0 <= m < idx@.len() ==> idx@[m] as int == #[trigger] u[m],
            forall|m: int| 0 <= m < u.len() ==> 0 <= #[trigger] u[m] < s.tasks@.len(),
            str_views(r@) == base + unfinished_lines(s.tasks@, u.take(k as int)),
        decreases idx@.len() - k,
    {
        let j = idx[k];
        assert(idx@[k as int] as int == u[k as int]);
        let t = &s.tasks[j];
        let mut m = String::from_str("任务 ");
        m.append(t.id.as_str());
        m.append(" 尚未完成：");
        m.append(t.status.as_str());
        let ghost before = str_views(r@);
        r.push(m);
        proof {
            assert(str_views(r@) =~= before.push("任务 "@ + t.id@ + " 尚未完成："@ + t.status@));
            assert(unfinished_lines(s.tasks@, u.take(k + 1)) =~= unfinished_lines(s.tasks@, u.take(k as int)).push(
                "任务 "@ + t.id@ + " 尚未完成："@ + t.status@,
            ));
        }
        k = k + 1;
    }
    assert(u.take(u.len() as int) =~= u);
    r
}

pub proof fn lemma_unfinished_bounds(tasks: Seq<TaskDoc>, has_tasks: bool, k: int)
    requires
        0 <= k < unfinished_of(tasks, has_tasks).len(),
    ensures
        0 <= unfinished_of(tasks, has_tasks)[k] < tasks.len(),
    decreases tasks.len(),
{
    if has_tasks && tasks.len() > 0 {
        let prev = unfinished_of(tasks.drop_last(), has_tasks);
        if k < prev.len() {
            lemma_unfinished_bounds(tasks.drop_last(), has_tasks, k);
        }
    }
}

/// Appends copies of `more`.
fn append_all(issues: &mut Vec<String>, more: &Vec<String>)
    ensures
        str_views(final(issues)@) == str_views(old(issues)@) + str_views(more@),
{
    let ghost base = str_views(issues@);
    let ghost mv = str_views(more@);
    let mut k: usize = 0;
    assert(base + mv.take(0) =~= base);
    while k < more.len()
        invariant
            k <= more@.len(),
            mv == str_views(more@),
            str_views(issues@) == base + mv.take(k as int),
        decreases more@.len() - k,
    {
        let ghost before = str_views(issues@);
        let item = String::from_str(more[k].as_str());
        assert(item@ == more@[k as int]@);
        issues.push(item);
        proof {
            assert(str_views(issues@) =~= before.push(more@[k as int]@));
            assert(mv.take(k + 1) =~= mv.take(k as int).push(more@[k as int]@));
        }
        k = k + 1;
    }
    assert(mv.take(mv.len() as int) =~= mv);
}

/// The raw verdict and report of evidence held against a change.
fn evidence_verdict(
    structure: &ChangeStructure,
    structural: &Vec<String>,
    v: &VerificationInput,
    checked_at: &str,
) -> (r: (String, usize, usize, usize, String))
    requires
        str_views(structural@) == structural_issues_of(*structure),
    ensures
        (r.0@, r.1 as nat, r.2 as nat, r.3 as nat) == raw_verdict(*structure, Some(*v)),
        r.4@ == report_of(*structure, Some(*v), checked_at@),
{
    let mut issues: Vec<String> = Vec::new();
    append_all(&mut issues, structural);
    let found = inspect_verification(v, structure);
    append_all(&mut issues, &found);
    assert(str_views(issues@) =~= structural_issues_of(*structure) + verification_issues(*v, *structure));
    let passed = count_passed(&v.checks);
    let requested_pass = passes(v.result.as_str());
    let result = if requested_pass && issues.len() == 0 {
        String::from_str("pass")
    } else {
        String::from_str("fail")
    };
    let rest = v.checks.len() - passed;
    let extra: usize = if issues.len() > 0 { 1 } else { 0 };
    let failed = rest.saturating_add(extra);
    let report = crate::sdd_render::render_verification(checked_at, v, structural.len() > 0, &issues);
    (result, v.checks.len(), passed, failed, report)
}

/// The raw verdict and report of a structure-only verification.
fn structure_verdict(structure: &ChangeStructure, structural: &Vec<String>, checked_at: &str) -> (r: (
    String,
    usize,
    usize,
    usize,
    String,
))
    requires
        str_views(structural@) == structural_issues_of(*structure),
    ensures
        (r.0@, r.1 as nat, r.2 as nat, r.3 as nat) == raw_verdict(*structure, None),
        r.4@ == report_of(*structure, None, checked_at@),
{
    let structural_failed = structural.len() > 0;
    let n = structure.requirements.len();
    let result = if structural_failed {
        String::from_str("fail")
    } else {
        String::from_str("pass")
    };
    let report = crate::sdd_render::render_structural_verification(
        checked_at,
        result.as_str(),
        n,
        structure.tasks.len(),
        structure.has_tasks,
        structural_failed,
        structural,
    );
    let one: usize = if structural_failed { 1 } else { 0 };
    (result, n, n.saturating_sub(one), one, report)
}

/// Decides `wiki sdd verify` for a change whose status is `status`: the
/// change must be draft, needs_fix or verified; supplied evidence must be
/// well-formed. The verdict passes only when there is no structural issue
/// and, with evidence, the evidence asks for a pass and raises no issue.
pub fn verify(
    change_id: &str,
    status: &str,
    structure: &ChangeStructure,
    verification: Option<&VerificationInput>,
    checked_at: &str,
) -> (r: Result<VerifyOutcome, SddError>)
    ensures
        !(status@ == "draft"@ || status@ == "needs_fix"@ || status@ == "verified"@) ==> (r matches Err(
            SddError::Invalid(m),
        ) && m@ == "SDD_VERIFY_NOT_READY: status is "@ + status@ + ", expected draft or needs_fix."@),
        (status@ == "draft"@ || status@ == "needs_fix"@ || status@ == "verified"@) && (verification matches Some(
            v,
        ) && verification_error(*v) is Some) ==> (r matches Err(SddError::Invalid(m)) && m@ == verification_error(
            *verification.unwrap(),
        )->0),
        (status@ == "draft"@ || status@ == "needs_fix"@ || status@ == "verified"@) && (verification matches Some(
            v,
        ) ==> verification_error(*v) is None) ==> (r matches Ok(o) && is_verify_outcome(
            o,
            change_id@,
            *structure,
            opt_input(verification),
            checked_at@,
        )),
{
    let sv = chars_of(status);
    if !(crate::text::chars_equal_str(sv.as_slice(), "draft") || crate::text::chars_equal_str(sv.as_slice(), "needs_fix")
        || crate::text::chars_equal_str(sv.as_slice(), "verified")) {
        let mut m = String::from_str("SDD_VERIFY_NOT_READY: status is ");
        m.append(status);
        m.append(", expected draft or needs_fix.");
        return Err(SddError::Invalid(m));
    }
    let structural = structural_issue_list(structure);
    let (result, checks, passed, failed, report) = match verification {
        Some(v) => {
            match validate_verification(v) {
                Err(e) => {
                    return Err(e);
                },
                Ok(()) => {},
            }
            evidence_verdict(structure, &structural, v, checked_at)
        },
        None => structure_verdict(structure, &structural, checked_at),
    };
    Ok(settle(change_id, structural.len() > 0, result, checks, passed, failed, report))
}

/// `o` is the outcome of verifying the change `s` with evidence `v`.
pub open spec fn is_verify_outcome(
    o: VerifyOutcome,
    change_id: Seq<char>,
    s: ChangeStructure,
    v: Option<VerificationInput>,
    checked_at: Seq<char>,
) -> bool {
    let (result, checks, passed, failed) = verdict(s, v);
    &&& o.result@ == result
    &&& o.checks == checks
    &&& o.passed == passed
    &&& o.failed == failed
    &&& o.status@ == if is_pass(result) {
        "verified"@
    } else {
        "needs_fix"@
    }
    &&& o.phase@ == if is_pass(result) {
        "archive"@
    } else {
        "spec"@
    }
    &&& o.report@ == report_of(s, v, checked_at)
    &&& o.next@ == if is_pass(result) {
        "验证已通过，可运行 wiki sdd archive --change "@ + change_id
    } else {
        "验证未通过，请修复规格或补充证据后重试 wiki sdd verify --change "@ + change_id
    }
}

/// Applies the final structural check and names the new status, phase and
/// next step.
fn settle(
    change_id: &str,
    structural_failed: bool,
    result: String,
    checks: usize,
    passed: usize,
    failed: usize,
    report: String,
) -> (o: VerifyOutcome)
    ensures
        ({
            let (r2, p2, f2) = if structural_failed && is_pass(result@) {
                ("fail"@, sat_sub(passed as nat, 1), sat_add(failed as nat, 1))
            } else {
                (result@, passed as nat, failed as nat)
            };
            &&& o.result@ == r2
            &&& o.checks == checks
            &&& o.passed == p2
            &&& o.failed == f2
            &&& o.status@ == if is_pass(r2) {
                "verified"@
            } else {
                "needs_fix"@
            }
            &&& o.phase@ == if is_pass(r2) {
                "archive"@
            } else {
                "spec"@
            }
            &&& o.report@ == report@
            &&& o.next@ == if is_pass(r2) {
                "验证已通过，可运行 wiki sdd archive --change "@ + change_id@
            } else {
                "验证未通过，请修复规格或补充证据后重试 wiki sdd verify --change "@ + change_id@
            }
        }),
{
    let mut result = result;
    let mut passed = passed;
    let mut failed = failed;
    let rc = chars_of(result.as_str());
    let pass_now = eq_ignore_case_str(rc.as_slice(), "pass") || eq_ignore_case_str(rc.as_slice(), "passed");
    if structural_failed && pass_now {
        result = String::from_str("fail");
        passed = passed.saturating_sub(1);
        failed = failed.saturating_add(1);
    }
    let rc2 = chars_of(result.as_str());
    let verified = eq_ignore_case_str(rc2.as_slice(), "pass") || eq_ignore_case_str(rc2.as_slice(), "passed");
    let (status, phase, next) = if verified {
        let mut next = String::from_str("验证已通过，可运行 wiki sdd archive --change ");
        next.append(change_id);
        (String::from_str("verified"), String::from_str("archive"), next)
    } else {
        let mut next = String::from_str("验证未通过，请修复规格或补充证据后重试 wiki sdd verify --change ");
        next.append(change_id);
        (String::from_str("needs_fix"), String::from_str("spec"), next)
    };
    VerifyOutcome { result, checks, passed, failed, status, phase, report, next }
}

} // verus!
