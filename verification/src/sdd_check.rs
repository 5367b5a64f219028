//! Read-only validation of an SDD change: identifiers, requirement
//! dependencies, tasks, the coverage matrix and verification evidence.
//!
//! Every check appends a human-readable issue; a change passes when no issue
//! is left.

use vstd::prelude::*;
use crate::sdd_parse::{
    ids_in, lists_set, lemma_sorted_ids, sorted_ids, CoverageRow, RequirementDoc, TaskDoc,
    extract_ids,
};
use crate::text::{
    ascii_lower_seq, ascii_lowercase, chars_equal, chars_of, contains_seq, contains_str,
    eq_ignore_case, eq_ignore_case_str, insert_sorted, lines, split_lines, strictly_sorted,
    string_of, str_views, views,
};

verus! {

// ---------------------------------------------------------------------------
// Sets of identifiers
// ---------------------------------------------------------------------------
/// Whether `x` is in the list `v`.
pub fn list_contains(v: &Vec<Vec<char>>, x: &[char]) -> (r: bool)
    ensures
        r == views(v@).contains(x@),
{
    let mut i: usize = 0;
    while i < v.len()
        invariant
            i <= v@.len(),
            forall|j: int| 0 <= j < i ==> views(v@)[j] != x@,
        decreases v@.len() - i,
    {
        if chars_equal(v[i].as_slice(), x) {
            assert(views(v@)[i as int] == x@);
            return true;
        }
        i = i + 1;
    }
    false
}

/// Whether `x` is one of the strings of `v`.
pub fn strings_contain(v: &Vec<String>, x: &str) -> (r: bool)
    ensures
        r == str_views(v@).contains(x@),
{
    let mut i: usize = 0;
    while i < v.len()
        invariant
            i <= v@.len(),
            forall|j: int| 0 <= j < i ==> str_views(v@)[j] != x@,
        decreases v@.len() - i,
    {
        let a = chars_of(v[i].as_str());
        let b = chars_of(x);
        if chars_equal(a.as_slice(), b.as_slice()) {
            assert(str_views(v@)[i as int] == x@);
            return true;
        }
        i = i + 1;
    }
    false
}

/// `s` (ASCII-lower-cased) is one of `options`.
pub open spec fn lower_in(s: Seq<char>, options: Seq<Seq<char>>) -> bool {
    options.contains(ascii_lower_seq(s))
}

/// Whether the lower-cased `s` is one of `options`.
pub fn lower_is_one_of(s: &str, options: &[&str]) -> (r: bool)
    ensures
        r == exists|i: int| 0 <= i < options@.len() && ascii_lower_seq(s@) == (#[trigger] options@[i])@,
{
    let v = chars_of(s);
    let lower = ascii_lowercase(v.as_slice());
    let mut i: usize = 0;
    while i < options.len()
        invariant
            i <= options@.len(),
            lower@ == ascii_lower_seq(s@),
            forall|j: int| 0 <= j < i ==> ascii_lower_seq(s@) != (#[trigger] options@[j])@,
        decreases options@.len() - i,
    {
        let o = chars_of(options[i]);
        if chars_equal(lower.as_slice(), o.as_slice()) {
            return true;
        }
        i = i + 1;
    }
    false
}

/// Whether the lower-cased `s` is one of `options`, given as the spec list
/// `names`.
pub fn lower_in_options(s: &str, options: &[&str], Ghost(names): Ghost<Seq<Seq<char>>>) -> (r: bool)
    requires
        options@.len() == names.len(),
        forall|i: int| 0 <= i < names.len() ==> (#[trigger] options@[i])@ == names[i],
    ensures
        r == lower_in(s@, names),
{
    let r = lower_is_one_of(s, options);
    proof {
        if r {
            let i = choose|i: int| 0 <= i < options@.len() && ascii_lower_seq(s@) == (#[trigger] options@[i])@;
            assert(names[i] == ascii_lower_seq(s@));
        }
        if lower_in(s@, names) {
            let i = choose|i: int| 0 <= i < names.len() && names[i] == ascii_lower_seq(s@);
            assert(ascii_lower_seq(s@) == options@[i]@);
        }
    }
    r
}

/// An issue when `cond` holds.
pub open spec fn issue_if(cond: bool, message: Seq<char>) -> Seq<Seq<char>> {
    if cond {
        seq![message]
    } else {
        seq![]
    }
}

/// `SDD_DUPLICATE_ID` issues for the items of `xs` already seen, in `seen`
/// or earlier in `xs`; with `skip_empty`, an empty item is never reported.
pub open spec fn dup_issues(xs: Seq<Seq<char>>, seen: Set<Seq<char>>, skip_empty: bool) -> Seq<
    Seq<char>,
>
    decreases xs.len(),
{
    if xs.len() == 0 {
        seq![]
    } else {
        let x = xs.last();
        dup_issues(xs.drop_last(), seen, skip_empty) + issue_if(
            seen.union(xs.drop_last().to_set()).contains(x) && !(skip_empty && x.len() == 0),
            "SDD_DUPLICATE_ID: "@ + x,
        )
    }
}

proof fn lemma_push_to_set(s: Seq<Seq<char>>, x: Seq<char>)
    ensures
        s.push(x).to_set() == s.to_set().insert(x),
{
    assert(s.push(x).to_set() =~= s.to_set().insert(x)) by {
        assert forall|e: Seq<char>| s.push(x).to_set().contains(e) implies s.to_set().insert(x).contains(e) by {
            let k = choose|k: int| 0 <= k < s.push(x).len() && s.push(x)[k] == e;
            if k < s.len() {
                assert(s[k] == e);
            }
        }
        assert forall|e: Seq<char>| s.to_set().insert(x).contains(e) implies s.push(x).to_set().contains(e) by {
            if e == x {
                assert(s.push(x)[s.len() as int] == e);
            } else {
                let k = choose|k: int| 0 <= k < s.len() && s[k] == e;
                assert(s.push(x)[k] == e);
            }
        }
    }
}

/// Appends the duplicate issue of `x` and records it as seen.
fn note_id(
    issues: &mut Vec<String>,
    seen: &mut Vec<Vec<char>>,
    x: &[char],
    skip_empty: bool,
    Ghost(done): Ghost<Seq<Seq<char>>>,
    Ghost(start): Ghost<Set<Seq<char>>>,
)
    requires
        strictly_sorted(views(old(seen)@)),
        views(old(seen)@).to_set() == start.union(done.to_set()),
    ensures
        strictly_sorted(views(final(seen)@)),
        views(final(seen)@).to_set() == start.union(done.push(x@).to_set()),
        str_views(final(issues)@) == str_views(old(issues)@) + issue_if(
            start.union(done.to_set()).contains(x@) && !(skip_empty && x@.len() == 0),
            "SDD_DUPLICATE_ID: "@ + x@,
        ),
{
    let present = list_contains(seen, x);
    if present && !(skip_empty && x.len() == 0) {
        let mut m = String::from_str("SDD_DUPLICATE_ID: ");
        crate::text::push_chars(&mut m, x);
        let ghost before = str_views(issues@);
        issues.push(m);
        assert(str_views(issues@) =~= before.push("SDD_DUPLICATE_ID: "@ + x@));
    } else {
        assert(str_views(issues@) =~= str_views(old(issues)@) + Seq::<Seq<char>>::empty());
    }
    if !present {
        let copy = crate::text::slice_chars(x, 0, x.len());
        assert(copy@ =~= x@);
        insert_sorted(seen, copy);
    } else {
        assert(views(seen@).to_set().contains(x@));
        assert(views(seen@).to_set().insert(x@) =~= views(seen@).to_set());
    }
    proof {
        lemma_push_to_set(done, x@);
        assert(views(seen@).to_set() =~= start.union(done.push(x@).to_set()));
    }
}


// ---------------------------------------------------------------------------
// The change structure and identifier checks
// ---------------------------------------------------------------------------
/// What the Markdown of a change declares, and the issues found so far.
pub struct ChangeStructure {
    pub requirements: Vec<RequirementDoc>,
    pub tasks: Vec<TaskDoc>,
    pub coverage: Vec<CoverageRow>,
    pub has_tasks: bool,
    /// Evidence identifiers registered in `[CODE]`/`[SDD]`/`[CMD]` lines,
    /// sorted.
    pub evidence_ids: Vec<String>,
    pub issues: Vec<String>,
}

pub open spec fn priorities() -> Seq<Seq<char>> {
    seq!["must"@, "should"@, "may"@]
}

pub open spec fn requirement_statuses() -> Seq<Seq<char>> {
    seq!["proposed"@, "implemented"@, "verified"@, "dropped"@]
}

/// The issues of one requirement given the identifiers and acceptance
/// criteria of the requirements before it.
pub open spec fn requirement_issues(
    r: RequirementDoc,
    ids: Set<Seq<char>>,
    accs: Set<Seq<char>>,
) -> Seq<Seq<char>> {
    issue_if(!lower_in(r.priority@, priorities()), r.id@ + " 的 Priority 必须是 must/should/may"@)
        + issue_if(
        !lower_in(r.status@, requirement_statuses()),
        r.id@ + " 的 Status 必须是 proposed/implemented/verified/dropped"@,
    ) + issue_if(ids.contains(r.id@) && r.id@.len() > 0, "SDD_DUPLICATE_ID: "@ + r.id@)
        + dup_issues(str_views(r.acceptance_ids@), accs, false) + issue_if(
        eq_ignore_case(r.priority@, "must"@) && r.acceptance_ids@.len() == 0,
        "SDD_REQUIREMENT_UNCOVERED: "@ + r.id@,
    )
}

/// The requirement checks in order: issues, identifiers seen, acceptance
/// criteria seen.
pub open spec fn requirement_fold(reqs: Seq<RequirementDoc>) -> (
    Seq<Seq<char>>,
    Set<Seq<char>>,
    Set<Seq<char>>,
)
    decreases reqs.len(),
{
    if reqs.len() == 0 {
        (seq![], Set::empty(), Set::empty())
    } else {
        let (is, ids, accs) = requirement_fold(reqs.drop_last());
        let r = reqs.last();
        (
            is + requirement_issues(r, ids, accs),
            ids.insert(r.id@),
            accs.union(str_views(r.acceptance_ids@).to_set()),
        )
    }
}

pub open spec fn task_ids(tasks: Seq<TaskDoc>) -> Seq<Seq<char>> {
    Seq::new(tasks.len(), |i: int| tasks[i].id@)
}

pub open spec fn requirement_ids(reqs: Seq<RequirementDoc>) -> Seq<Seq<char>> {
    Seq::new(reqs.len(), |i: int| reqs[i].id@)
}

/// A line that registers evidence: it names `[CODE]`, `[SDD]` or `[CMD]`.
pub open spec fn registers_evidence(line: Seq<char>) -> bool {
    contains_seq(line, "[CODE]"@) || contains_seq(line, "[SDD]"@) || contains_seq(line, "[CMD]"@)
}

/// The evidence identifiers of the lines `ls`, line by line in sorted order.
pub open spec fn evidence_in_lines(ls: Seq<Seq<char>>) -> Seq<Seq<char>>
    decreases ls.len(),
{
    if ls.len() == 0 {
        seq![]
    } else {
        evidence_in_lines(ls.drop_last()) + if registers_evidence(ls.last()) {
            sorted_ids(ids_in(ls.last(), "E-"@))
        } else {
            seq![]
        }
    }
}

/// The evidence identifiers of the documents `texts`, in order.
pub open spec fn evidence_in_texts(texts: Seq<Seq<char>>) -> Seq<Seq<char>>
    decreases texts.len(),
{
    if texts.len() == 0 {
        seq![]
    } else {
        evidence_in_texts(texts.drop_last()) + evidence_in_lines(lines(texts.last()))
    }
}

/// The issues of the identifier checks: requirements, then duplicate task
/// identifiers, then duplicate evidence identifiers.
pub open spec fn structure_id_issues(
    reqs: Seq<RequirementDoc>,
    tasks: Seq<TaskDoc>,
    texts: Seq<Seq<char>>,
    evidence: Set<Seq<char>>,
) -> Seq<Seq<char>> {
    requirement_fold(reqs).0 + dup_issues(task_ids(tasks), Set::empty(), true) + dup_issues(
        evidence_in_texts(texts),
        evidence,
        false,
    )
}

proof fn lemma_uncovered_in_fold(reqs: Seq<RequirementDoc>, i: int)
    requires
        0 <= i < reqs.len(),
        eq_ignore_case(reqs[i].priority@, "must"@),
        reqs[i].acceptance_ids@.len() == 0,
    ensures
        requirement_fold(reqs).0.contains("SDD_REQUIREMENT_UNCOVERED: "@ + reqs[i].id@),
    decreases reqs.len(),
{
    let (is, ids, accs) = requirement_fold(reqs.drop_last());
    let r = reqs.last();
    let all = is + requirement_issues(r, ids, accs);
    let m = "SDD_REQUIREMENT_UNCOVERED: "@ + reqs[i].id@;
    if i < reqs.len() - 1 {
        assert(reqs.drop_last()[i] == reqs[i]);
        lemma_uncovered_in_fold(reqs.drop_last(), i);
        let k = choose|k: int| 0 <= k < is.len() && is[k] == m;
        assert(all[k] == m);
    } else {
        let ri = requirement_issues(r, ids, accs);
        assert(ri[ri.len() - 1] == m);
        assert(all[is.len() + ri.len() - 1] == m);
    }
}

/// Every requirement of priority `must` (in any ASCII case) without
/// acceptance criteria is reported uncovered by the identifier checks.
pub proof fn must_requirements_need_acceptance(
    reqs: Seq<RequirementDoc>,
    tasks: Seq<TaskDoc>,
    texts: Seq<Seq<char>>,
    evidence: Set<Seq<char>>,
    i: int,
)
    requires
        0 <= i < reqs.len(),
        eq_ignore_case(reqs[i].priority@, "must"@),
        reqs[i].acceptance_ids@.len() == 0,
    ensures
        structure_id_issues(reqs, tasks, texts, evidence).contains("SDD_REQUIREMENT_UNCOVERED: "@ + reqs[i].id@),
{
    lemma_uncovered_in_fold(reqs, i);
    let f = requirement_fold(reqs).0;
    let k = choose|k: int| 0 <= k < f.len() && f[k] == "SDD_REQUIREMENT_UNCOVERED: "@ + reqs[i].id@;
    assert(structure_id_issues(reqs, tasks, texts, evidence)[k] == f[k]);
}

#[verifier::rlimit(40)]
fn check_requirement(
    issues: &mut Vec<String>,
    ids: &mut Vec<Vec<char>>,
    accs: &mut Vec<Vec<char>>,
    r: &RequirementDoc,
    Ghost(seen_ids): Ghost<Set<Seq<char>>>,
    Ghost(seen_accs): Ghost<Set<Seq<char>>>,
)
    requires
        strictly_sorted(views(old(ids)@)),
        strictly_sorted(views(old(accs)@)),
        views(old(ids)@).to_set() == seen_ids,
        views(old(accs)@).to_set() == seen_accs,
    ensures
        strictly_sorted(views(final(ids)@)),
        strictly_sorted(views(final(accs)@)),
        views(final(ids)@).to_set() == seen_ids.insert(r.id@),
        views(final(accs)@).to_set() == seen_accs.union(str_views(r.acceptance_ids@).to_set()),
        str_views(final(issues)@) == str_views(old(issues)@) + requirement_issues(
            *r,
            seen_ids,
            seen_accs,
        ),
{
    let ghost base = str_views(issues@);
    let priority_names = ["must", "should", "may"];
    assert(priority_names@[0] == "must" && priority_names@[1] == "should" && priority_names@[2] == "may");
    let good_priority = lower_in_options(r.priority.as_str(), priority_names.as_slice(), Ghost(priorities()));
    if !good_priority {
        let mut m = r.id.clone();
        m.append(" 的 Priority 必须是 must/should/may");
        issues.push(m);
    }
    let ghost after_priority = str_views(issues@);
    assert(after_priority =~= base + issue_if(
        !lower_in(r.priority@, priorities()),
        r.id@ + " 的 Priority 必须是 must/should/may"@,
    ));
    let status_names = ["proposed", "implemented", "verified", "dropped"];
    assert(status_names@[0] == "proposed" && status_names@[1] == "implemented" && status_names@[2] == "verified" && status_names@[3] == "dropped");
    let good_status = lower_in_options(r.status.as_str(), status_names.as_slice(), Ghost(requirement_statuses()));
    if !good_status {
        let mut m = r.id.clone();
        m.append(" 的 Status 必须是 proposed/implemented/verified/dropped");
        issues.push(m);
    }
    let ghost after_status = str_views(issues@);
    assert(after_status =~= after_priority + issue_if(
        !lower_in(r.status@, requirement_statuses()),
        r.id@ + " 的 Status 必须是 proposed/implemented/verified/dropped"@,
    ));
    let id = chars_of(r.id.as_str());
    let ghost empty: Seq<Seq<char>> = seq![];
    assert(empty.to_set() =~= Set::<Seq<char>>::empty());
    assert(seen_ids.union(empty.to_set()) =~= seen_ids);
    note_id(issues, ids, id.as_slice(), true, Ghost(empty), Ghost(seen_ids));
    proof {
        lemma_push_to_set(empty, id@);
        assert(seen_ids.union(empty.push(id@).to_set()) =~= seen_ids.insert(id@));
        assert(str_views(issues@) =~= after_status + issue_if(
            seen_ids.contains(r.id@) && r.id@.len() > 0,
            "SDD_DUPLICATE_ID: "@ + r.id@,
        ));
    }
    let ghost after_id = str_views(issues@);
    let mut k: usize = 0;
    let ghost accv = str_views(r.acceptance_ids@);
    assert(accv.take(0).to_set() =~= Set::<Seq<char>>::empty());
    assert(seen_accs.union(accv.take(0).to_set()) =~= seen_accs);
    assert(dup_issues(accv.take(0), seen_accs, false) =~= Seq::<Seq<char>>::empty());
    while k < r.acceptance_ids.len()
        invariant
            k <= r.acceptance_ids@.len(),
            accv == str_views(r.acceptance_ids@),
            strictly_sorted(views(accs@)),
            views(accs@).to_set() == seen_accs.union(accv.take(k as int).to_set()),
            str_views(issues@) == after_id + dup_issues(accv.take(k as int), seen_accs, false),
        decreases r.acceptance_ids@.len() - k,
    {
        let a = chars_of(r.acceptance_ids[k].as_str());
        let ghost before = str_views(issues@);
        note_id(issues, accs, a.as_slice(), false, Ghost(accv.take(k as int)), Ghost(seen_accs));
        proof {
            assert(accv.take(k + 1) =~= accv.take(k as int).push(a@));
            assert(accv.take(k + 1).drop_last() =~= accv.take(k as int));
            assert(str_views(issues@) =~= after_id + dup_issues(accv.take(k + 1), seen_accs, false));
        }
        k = k + 1;
    }
    assert(accv.take(accv.len() as int) =~= accv);
    let ghost after_accs = str_views(issues@);
    let must = eq_ignore_case_str(chars_of(r.priority.as_str()).as_slice(), "must");
    if must && r.acceptance_ids.len() == 0 {
        let mut m = String::from_str("SDD_REQUIREMENT_UNCOVERED: ");
        m.append(r.id.as_str());
        issues.push(m);
    }
    proof {
        assert(str_views(issues@) =~= after_accs + issue_if(
            eq_ignore_case(r.priority@, "must"@) && r.acceptance_ids@.len() == 0,
            "SDD_REQUIREMENT_UNCOVERED: "@ + r.id@,
        ));
        assert(str_views(issues@) =~= base + requirement_issues(*r, seen_ids, seen_accs));
    }
}


/// Character vectors of a list of strings.
pub fn char_lists_of(v: &Vec<String>) -> (r: Vec<Vec<char>>)
    ensures
        views(r@) == str_views(v@),
{
    char_lists(v)
}

/// Character vectors of a list of strings.
fn char_lists(v: &Vec<String>) -> (r: Vec<Vec<char>>)
    ensures
        views(r@) == str_views(v@),
{
    let mut r: Vec<Vec<char>> = Vec::new();
    let mut i: usize = 0;
    while i < v.len()
        invariant
            i <= v@.len(),
            views(r@) == str_views(v@).take(i as int),
        decreases v@.len() - i,
    {
        let c = chars_of(v[i].as_str());
        let ghost before = views(r@);
        r.push(c);
        proof {
            assert(views(r@) =~= before.push(v@[i as int]@));
            assert(str_views(v@).take(i + 1) =~= str_views(v@).take(i as int).push(v@[i as int]@));
        }
        i = i + 1;
    }
    assert(str_views(v@).take(v@.len() as int) =~= str_views(v@));
    r
}

proof fn lemma_dup_take(xs: Seq<Seq<char>>, k: int, seen: Set<Seq<char>>, skip_empty: bool)
    requires
        0 <= k < xs.len(),
    ensures
        dup_issues(xs.take(k + 1), seen, skip_empty) == dup_issues(xs.take(k), seen, skip_empty)
            + issue_if(
            seen.union(xs.take(k).to_set()).contains(xs[k]) && !(skip_empty && xs[k].len() == 0),
            "SDD_DUPLICATE_ID: "@ + xs[k],
        ),
{
    assert(xs.take(k + 1).drop_last() =~= xs.take(k));
    assert(xs.take(k + 1).last() == xs[k]);
}

/// Checks the identifiers of a change: requirement fields and duplicates,
/// uncovered must-requirements, duplicate task identifiers, and duplicate
/// evidence identifiers registered in `texts`; collects the evidence
/// identifiers.
pub fn validate_structure_ids(structure: &mut ChangeStructure, texts: &Vec<String>)
    requires
        strictly_sorted(str_views(old(structure).evidence_ids@)),
    ensures
        final(structure).requirements == old(structure).requirements,
        final(structure).tasks == old(structure).tasks,
        final(structure).coverage == old(structure).coverage,
        final(structure).has_tasks == old(structure).has_tasks,
        str_views(final(structure).issues@) == str_views(old(structure).issues@)
            + structure_id_issues(
            old(structure).requirements@,
            old(structure).tasks@,
            str_views(texts@),
            str_views(old(structure).evidence_ids@).to_set(),
        ),
        lists_set(
            str_views(final(structure).evidence_ids@),
            str_views(old(structure).evidence_ids@).to_set().union(
                evidence_in_texts(str_views(texts@)).to_set(),
            ),
        ),
{
    let ghost base = str_views(structure.issues@);
    let ghost reqs = structure.requirements@;
    let mut ids: Vec<Vec<char>> = Vec::new();
    let mut accs: Vec<Vec<char>> = Vec::new();
    assert(views(ids@).to_set() =~= Set::<Seq<char>>::empty());
    assert(views(accs@).to_set() =~= Set::<Seq<char>>::empty());
    assert(reqs.take(0) =~= Seq::<RequirementDoc>::empty());
    let mut i: usize = 0;
    while i < structure.requirements.len()
        invariant
            structure.requirements == old(structure).requirements,
            structure.tasks == old(structure).tasks,
            structure.coverage == old(structure).coverage,
            structure.has_tasks == old(structure).has_tasks,
            structure.evidence_ids == old(structure).evidence_ids,
            i <= reqs.len(),
            structure.requirements@ == reqs,
            strictly_sorted(views(ids@)),
            strictly_sorted(views(accs@)),
            views(ids@).to_set() == requirement_fold(reqs.take(i as int)).1,
            views(accs@).to_set() == requirement_fold(reqs.take(i as int)).2,
            str_views(structure.issues@) == base + requirement_fold(reqs.take(i as int)).0,
        decreases reqs.len() - i,
    {
        let ghost f = requirement_fold(reqs.take(i as int));
        check_requirement(&mut structure.issues, &mut ids, &mut accs, &structure.requirements[i], Ghost(f.1), Ghost(f.2));
        proof {
            assert(reqs.take(i + 1).drop_last() =~= reqs.take(i as int));
            assert(reqs.take(i + 1).last() == reqs[i as int]);
        }
        i = i + 1;
    }
    assert(reqs.take(reqs.len() as int) =~= reqs);
    let ghost after_reqs = str_views(structure.issues@);
    let ghost tids = task_ids(structure.tasks@);
    let mut seen_tasks: Vec<Vec<char>> = Vec::new();
    assert(views(seen_tasks@).to_set() =~= Set::<Seq<char>>::empty());
    let mut t: usize = 0;
    assert(tids.take(0).to_set() =~= Set::<Seq<char>>::empty());
    assert(Set::<Seq<char>>::empty().union(tids.take(0).to_set()) =~= Set::<Seq<char>>::empty());
    while t < structure.tasks.len()
        invariant
            structure.requirements == old(structure).requirements,
            structure.tasks == old(structure).tasks,
            structure.coverage == old(structure).coverage,
            structure.has_tasks == old(structure).has_tasks,
            structure.evidence_ids == old(structure).evidence_ids,
            t <= tids.len(),
            tids == task_ids(structure.tasks@),
            strictly_sorted(views(seen_tasks@)),
            views(seen_tasks@).to_set() == Set::<Seq<char>>::empty().union(tids.take(t as int).to_set()),
            str_views(structure.issues@) == after_reqs + dup_issues(tids.take(t as int), Set::empty(), true),
        decreases tids.len() - t,
    {
        let id = chars_of(structure.tasks[t].id.as_str());
        note_id(&mut structure.issues, &mut seen_tasks, id.as_slice(), true, Ghost(tids.take(t as int)), Ghost(Set::empty()));
        proof {
            lemma_dup_take(tids, t as int, Set::empty(), true);
            assert(tids.take(t as int).push(id@) =~= tids.take(t + 1));
        }
        t = t + 1;
    }
    assert(tids.take(tids.len() as int) =~= tids);
    let ghost after_tasks = str_views(structure.issues@);
    let ghost tv = str_views(texts@);
    let ghost start = str_views(structure.evidence_ids@).to_set();
    let mut evidence = char_lists(&structure.evidence_ids);
    let ghost mut done: Seq<Seq<char>> = seq![];
    assert(done.to_set() =~= Set::<Seq<char>>::empty());
    assert(start.union(done.to_set()) =~= start);
    let mut x: usize = 0;
    while x < texts.len()
        invariant
            structure.requirements == old(structure).requirements,
            structure.tasks == old(structure).tasks,
            structure.coverage == old(structure).coverage,
            structure.has_tasks == old(structure).has_tasks,
            structure.evidence_ids == old(structure).evidence_ids,
            x <= tv.len(),
            tv == str_views(texts@),
            done == evidence_in_texts(tv.take(x as int)),
            strictly_sorted(views(evidence@)),
            views(evidence@).to_set() == start.union(done.to_set()),
            str_views(structure.issues@) == after_tasks + dup_issues(done, start, false),
        decreases tv.len() - x,
    {
        let tc = chars_of(texts[x].as_str());
        let ls = split_lines(tc.as_slice());
        let ghost lv = views(ls@);
        let ghost text_start = done;
        let mut j: usize = 0;
        assert(lv.take(0) =~= Seq::<Seq<char>>::empty());
        assert(text_start + evidence_in_lines(lv.take(0)) =~= text_start);
        while j < ls.len()
            invariant
                structure.requirements == old(structure).requirements,
                structure.tasks == old(structure).tasks,
                structure.coverage == old(structure).coverage,
                structure.has_tasks == old(structure).has_tasks,
                structure.evidence_ids == old(structure).evidence_ids,
                j <= lv.len(),
                lv == views(ls@),
                done == text_start + evidence_in_lines(lv.take(j as int)),
                strictly_sorted(views(evidence@)),
                views(evidence@).to_set() == start.union(done.to_set()),
                str_views(structure.issues@) == after_tasks + dup_issues(done, start, false),
            decreases lv.len() - j,
        {
            let line = &ls[j];
            let ghost line_start = done;
            proof {
                assert(lv.take(j + 1).drop_last() =~= lv.take(j as int));
                assert(lv.take(j + 1).last() == line@);
            }
            if contains_str(line.as_slice(), "[CODE]") || contains_str(line.as_slice(), "[SDD]")
                || contains_str(line.as_slice(), "[CMD]") {
                let found = extract_ids(string_of(line.as_slice()).as_str(), "E-");
                let ghost fv = str_views(found@);
                proof {
                    lemma_sorted_ids(fv, ids_in(line@, "E-"@));
                }
                let mut k: usize = 0;
                assert(line_start + fv.take(0) =~= line_start);
                while k < found.len()
                    invariant
                        structure.requirements == old(structure).requirements,
                        structure.tasks == old(structure).tasks,
                        structure.coverage == old(structure).coverage,
                        structure.has_tasks == old(structure).has_tasks,
                        structure.evidence_ids == old(structure).evidence_ids,
                        k <= fv.len(),
                        fv == str_views(found@),
                        done == line_start + fv.take(k as int),
                        strictly_sorted(views(evidence@)),
                        views(evidence@).to_set() == start.union(done.to_set()),
                        str_views(structure.issues@) == after_tasks + dup_issues(done, start, false),
                    decreases fv.len() - k,
                {
                    let e = chars_of(found[k].as_str());
                    note_id(&mut structure.issues, &mut evidence, e.as_slice(), false, Ghost(done), Ghost(start));
                    proof {
                        let nd = done.push(e@);
                        assert(nd.drop_last() =~= done);
                        assert(nd.last() == e@);
                        assert(nd =~= line_start + fv.take(k + 1));
                        done = nd;
                    }
                    k = k + 1;
                }
                proof {
                    assert(fv.take(fv.len() as int) =~= fv);
                    assert(done =~= text_start + evidence_in_lines(lv.take(j + 1)));
                }
            } else {
                proof {
                    assert(done =~= text_start + evidence_in_lines(lv.take(j + 1)));
                }
            }
            j = j + 1;
        }
        proof {
            assert(lv.take(lv.len() as int) =~= lv);
            assert(lv == lines(tv[x as int]));
            assert(tv.take(x + 1).drop_last() =~= tv.take(x as int));
            assert(tv.take(x + 1).last() == tv[x as int]);
        }
        x = x + 1;
    }
    assert(tv.take(tv.len() as int) =~= tv);
    structure.evidence_ids = crate::text::strings_of(&evidence);
    proof {
        assert(str_views(structure.issues@) =~= base + structure_id_issues(
            reqs,
            structure.tasks@,
            tv,
            start,
        ));
    }
}


// ---------------------------------------------------------------------------
// Dependency cycles
// ---------------------------------------------------------------------------
/// `j` is the last position of the key `x`; later entries with the same key
/// replace earlier ones, as in a map built by inserting in order.
pub open spec fn is_last(keys: Seq<Seq<char>>, x: Seq<char>, j: int) -> bool {
    &&& 0 <= j < keys.len()
    &&& keys[j] == x
    &&& forall|k: int| j < k < keys.len() ==> keys[k] != x
}

/// The position whose dependencies the key `x` has, if `x` is a key.
pub open spec fn last_index(keys: Seq<Seq<char>>, x: Seq<char>) -> Option<int> {
    if exists|j: int| is_last(keys, x, j) {
        Some(choose|j: int| is_last(keys, x, j))
    } else {
        None
    }
}

/// A non-empty set of keys each of which depends on a member of the set:
/// following dependencies from any member never leaves the set, so the
/// dependencies run in a cycle.
pub open spec fn closed_set(keys: Seq<Seq<char>>, deps: Seq<Seq<Seq<char>>>, s: Set<Seq<char>>) -> bool {
    &&& exists|x: Seq<char>| s.contains(x)
    &&& forall|x: Seq<char>|
        #[trigger] s.contains(x) ==> (last_index(keys, x) matches Some(j) && exists|c: Seq<char>|
            deps[j].contains(c) && s.contains(c))
}

/// The dependency graph mapping `keys[i]` to `deps[i]` (later keys replace
/// earlier ones) has a cycle.
#[verifier::opaque]
pub open spec fn has_cycle(keys: Seq<Seq<char>>, deps: Seq<Seq<Seq<char>>>) -> bool {
    exists|s: Set<Seq<char>>| closed_set(keys, deps, s)
}

/// `a` is a key whose dependencies (its last entry's) include `b`.
pub open spec fn depends_on(keys: Seq<Seq<char>>, deps: Seq<Seq<Seq<char>>>, a: Seq<char>, b: Seq<char>) -> bool {
    last_index(keys, a) matches Some(j) && deps[j].contains(b)
}

/// A chain of at least one dependency step, each element depending on the
/// next, that ends where it starts.
pub open spec fn cycle_chain(keys: Seq<Seq<char>>, deps: Seq<Seq<Seq<char>>>, p: Seq<Seq<char>>) -> bool {
    &&& p.len() >= 2
    &&& p[0] == p[p.len() - 1]
    &&& forall|i: int| 0 <= i < p.len() - 1 ==> #[trigger] depends_on(keys, deps, p[i], p[i + 1])
}

/// A dependency of `x` inside the set `s`.
pub open spec fn next_in(keys: Seq<Seq<char>>, deps: Seq<Seq<Seq<char>>>, s: Set<Seq<char>>, x: Seq<char>) -> Seq<char> {
    match last_index(keys, x) {
        Some(j) => choose|c: Seq<char>| deps[j].contains(c) && s.contains(c),
        None => x,
    }
}

/// Marks a key the chain visits.
pub open spec fn visit(y: Seq<char>) -> bool {
    true
}

/// From every member of `s`, `next_in` is a dependency inside `s`.
pub open spec fn steps_within(keys: Seq<Seq<char>>, deps: Seq<Seq<Seq<char>>>, s: Set<Seq<char>>) -> bool {
    forall|y: Seq<char>|
        #[trigger] visit(y) ==> (s.contains(y) ==> depends_on(keys, deps, y, next_in(keys, deps, s, y)) && s.contains(
            next_in(keys, deps, s, y),
        ))
}

/// `n` steps through `s` from `x`.
pub open spec fn walk(keys: Seq<Seq<char>>, deps: Seq<Seq<Seq<char>>>, s: Set<Seq<char>>, x: Seq<char>, n: nat) -> Seq<
    Seq<char>,
>
    decreases n,
{
    if n == 0 {
        seq![x]
    } else {
        seq![x] + walk(keys, deps, s, next_in(keys, deps, s, x), (n - 1) as nat)
    }
}

proof fn lemma_walk(keys: Seq<Seq<char>>, deps: Seq<Seq<Seq<char>>>, s: Set<Seq<char>>, x: Seq<char>, n: nat)
    requires
        steps_within(keys, deps, s),
        s.contains(x),
    ensures
        ({
            let w = walk(keys, deps, s, x, n);
            &&& w.len() == n + 1
            &&& w[0] == x
            &&& forall|i: int| 0 <= i < w.len() ==> s.contains(#[trigger] w[i])
            &&& forall|i: int| 0 <= i < n ==> #[trigger] depends_on(keys, deps, w[i], w[i + 1])
        }),
    decreases n,
{
    if n > 0 {
        assert(visit(x));
        let c = next_in(keys, deps, s, x);
        lemma_walk(keys, deps, s, c, (n - 1) as nat);
        let w = walk(keys, deps, s, x, n);
        let t = walk(keys, deps, s, c, (n - 1) as nat);
        assert(w == seq![x] + t);
        assert forall|i: int| 0 <= i < w.len() implies s.contains(#[trigger] w[i]) by {
            if i > 0 {
                assert(w[i] == t[i - 1]);
            }
        }
        assert forall|i: int| 0 <= i < n implies #[trigger] depends_on(keys, deps, w[i], w[i + 1]) by {
            assert(w[i + 1] == t[i]);
            if i > 0 {
                let k = i - 1;
                assert(w[i] == t[k]);
                assert(depends_on(keys, deps, t[k], t[k + 1]));
            }
        }
    }
}

proof fn lemma_closed_steps(keys: Seq<Seq<char>>, deps: Seq<Seq<Seq<char>>>, s: Set<Seq<char>>)
    requires
        closed_set(keys, deps, s),
    ensures
        steps_within(keys, deps, s),
{
    assert forall|y: Seq<char>| #[trigger] visit(y) implies (s.contains(y) ==> depends_on(keys, deps, y, next_in(keys, deps, s, y))
        && s.contains(next_in(keys, deps, s, y))) by {
        if s.contains(y) {
            lemma_last_index_key(keys, y);
            let j = last_index(keys, y)->0;
            let c = choose|c: Seq<char>| deps[j].contains(c) && s.contains(c);
            assert(deps[j].contains(c) && s.contains(c));
        }
    }
}

proof fn lemma_chain_of_closed(keys: Seq<Seq<char>>, deps: Seq<Seq<Seq<char>>>, s: Set<Seq<char>>) -> (p: Seq<Seq<char>>)
    requires
        steps_within(keys, deps, s),
        exists|x: Seq<char>| s.contains(x),
        forall|y: Seq<char>| #[trigger] s.contains(y) ==> keys.contains(y),
    ensures
        cycle_chain(keys, deps, p),
{
    let x = choose|x: Seq<char>| s.contains(x);
    let n = keys.len();
    lemma_walk(keys, deps, s, x, n);
    let w = walk(keys, deps, s, x, n);
    assert(w.to_set().subset_of(keys.to_set())) by {
        assert forall|y: Seq<char>| #[trigger] w.to_set().contains(y) implies keys.to_set().contains(y) by {
            let i = choose|i: int| 0 <= i < w.len() && w[i] == y;
            assert(s.contains(w[i]));
        }
    }
    keys.lemma_cardinality_of_set();
    vstd::seq_lib::seq_to_set_is_finite(keys);
    vstd::set_lib::lemma_len_subset(w.to_set(), keys.to_set());
    if w.no_duplicates() {
        w.unique_seq_to_set();
        assert(false);
    }
    let (a, b) = choose|a: int, b: int| 0 <= a < w.len() && 0 <= b < w.len() && a != b && w[a] == w[b];
    let lo = if a < b { a } else { b };
    let hi = if a < b { b } else { a };
    let p = w.subrange(lo, hi + 1);
    assert forall|i: int| 0 <= i < p.len() - 1 implies #[trigger] depends_on(keys, deps, p[i], p[i + 1]) by {
        assert(p[i] == w[lo + i] && p[i + 1] == w[lo + i + 1]);
        assert(depends_on(keys, deps, w[lo + i], w[lo + i + 1]));
    }
    p
}

proof fn lemma_closed_of_chain(keys: Seq<Seq<char>>, deps: Seq<Seq<Seq<char>>>, p: Seq<Seq<char>>) -> (s: Set<Seq<char>>)
    requires
        cycle_chain(keys, deps, p),
    ensures
        closed_set(keys, deps, s),
{
    let d = p.drop_last();
    let s = d.to_set();
    assert(s.contains(p[0])) by {
        assert(d[0] == p[0]);
    }
    assert forall|x: Seq<char>| #[trigger] s.contains(x) implies (last_index(keys, x) matches Some(j) && exists|c: Seq<char>|
        deps[j].contains(c) && s.contains(c)) by {
        let i = choose|i: int| 0 <= i < d.len() && d[i] == x;
        assert(d[i] == p[i]);
        assert(depends_on(keys, deps, p[i], p[i + 1]));
        let j = last_index(keys, x)->0;
        let c = p[i + 1];
        if i + 1 < d.len() {
            assert(d[i + 1] == c);
        }
        assert(s.contains(c));
        assert(deps[j].contains(c));
    }
    s
}

proof fn lemma_cycle_of_chain(keys: Seq<Seq<char>>, deps: Seq<Seq<Seq<char>>>, p: Seq<Seq<char>>)
    requires
        cycle_chain(keys, deps, p),
    ensures
        has_cycle(keys, deps),
{
    reveal(has_cycle);
    let s = lemma_closed_of_chain(keys, deps, p);
    assert(closed_set(keys, deps, s));
}

proof fn lemma_chain_of_cycle(keys: Seq<Seq<char>>, deps: Seq<Seq<Seq<char>>>) -> (p: Seq<Seq<char>>)
    requires
        has_cycle(keys, deps),
    ensures
        cycle_chain(keys, deps, p),
{
    reveal(has_cycle);
    let s = choose|s: Set<Seq<char>>| closed_set(keys, deps, s);
    lemma_closed_steps(keys, deps, s);
    assert forall|y: Seq<char>| #[trigger] s.contains(y) implies keys.contains(y) by {
        lemma_last_index_key(keys, y);
        let j = last_index(keys, y)->0;
        assert(keys[j] == y);
    }
    lemma_chain_of_closed(keys, deps, s)
}

/// The dependency graph has a cycle exactly when some chain of keys, each
/// a dependency of the one before, returns to where it started.
pub proof fn dependency_cycle_is_a_returning_chain(keys: Seq<Seq<char>>, deps: Seq<Seq<Seq<char>>>)
    ensures
        has_cycle(keys, deps) <==> exists|p: Seq<Seq<char>>| cycle_chain(keys, deps, p),
{
    if exists|p: Seq<Seq<char>>| cycle_chain(keys, deps, p) {
        let p = choose|p: Seq<Seq<char>>| cycle_chain(keys, deps, p);
        lemma_cycle_of_chain(keys, deps, p);
    }
    if has_cycle(keys, deps) {
        let p = lemma_chain_of_cycle(keys, deps);
        assert(cycle_chain(keys, deps, p));
    }
}

pub open spec fn dep_views(deps: Seq<Vec<Vec<char>>>) -> Seq<Seq<Seq<char>>> {
    Seq::new(deps.len(), |i: int| views(deps[i]@))
}

proof fn lemma_is_last_unique(keys: Seq<Seq<char>>, x: Seq<char>, a: int, b: int)
    requires
        is_last(keys, x, a),
        is_last(keys, x, b),
    ensures
        a == b,
{
    if a < b {
        assert(keys[b] == x);
    } else if b < a {
        assert(keys[a] == x);
    }
}

/// The last position of the key `x`.
fn find_last(keys: &Vec<Vec<char>>, x: &[char]) -> (r: Option<usize>)
    ensures
        match r {
            Some(j) => last_index(views(keys@), x@) == Some(j as int),
            None => last_index(views(keys@), x@) is None,
        },
{
    let ghost kv = views(keys@);
    let mut i = keys.len();
    while i > 0
        invariant
            i <= keys@.len(),
            kv == views(keys@),
            forall|k: int| i <= k < kv.len() ==> kv[k] != x@,
        decreases i,
    {
        if chars_equal(keys[i - 1].as_slice(), x) {
            proof {
                assert(is_last(kv, x@, i - 1));
                let c = choose|j: int| is_last(kv, x@, j);
                lemma_is_last_unique(kv, x@, c, i - 1);
            }
            return Some(i - 1);
        }
        i = i - 1;
    }
    proof {
        assert(!exists|j: int| is_last(kv, x@, j));
    }
    None
}

/// Number of `true` entries.
pub open spec fn count_true(s: Seq<bool>) -> nat
    decreases s.len(),
{
    if s.len() == 0 {
        0
    } else {
        count_true(s.drop_last()) + if s.last() {
            1nat
        } else {
            0nat
        }
    }
}

proof fn lemma_count_clear(s: Seq<bool>, k: int)
    requires
        0 <= k < s.len(),
        s[k],
    ensures
        count_true(s) >= 1,
        count_true(s.update(k, false)) == count_true(s) - 1,
    decreases s.len(),
{
    let t = s.update(k, false);
    if k == s.len() - 1 {
        assert(t.drop_last() =~= s.drop_last());
    } else {
        lemma_count_clear(s.drop_last(), k);
        assert(t.drop_last() =~= s.drop_last().update(k, false));
    }
}

/// The position whose entry a map built from `keys` keeps for `x`.
pub fn find_last_id(keys: &Vec<Vec<char>>, x: &[char]) -> (r: Option<usize>)
    ensures
        match r {
            Some(j) => last_index(views(keys@), x@) == Some(j as int) && j < keys@.len(),
            None => last_index(views(keys@), x@) is None,
        },
{
    let r = find_last(keys, x);
    proof {
        if r is Some {
            let c = choose|j: int| is_last(views(keys@), x@, j);
        }
    }
    r
}

/// Positions of live keys: their entry is the one a map keeps.
spec fn canonical(keys: Seq<Seq<char>>, i: int) -> bool {
    0 <= i < keys.len() && last_index(keys, keys[i]) == Some(i)
}

/// The entry at `i` can be peeled: none of its dependencies is a live key.
#[verifier::opaque]
spec fn peelable(keys: Seq<Seq<char>>, deps: Seq<Seq<Seq<char>>>, alive: Seq<bool>, i: int) -> bool {
    forall|c: Seq<char>| #[trigger] deps[i].contains(c) ==> (last_index(keys, c) matches Some(j) ==> !alive[j])
}

/// Only canonical entries are alive.
#[verifier::opaque]
spec fn alive_canonical(keys: Seq<Seq<char>>, alive: Seq<bool>) -> bool {
    alive.len() == keys.len() && forall|k: int| 0 <= k < keys.len() && #[trigger] alive[k] ==> canonical(keys, k)
}

/// Every member of every closed set is still alive.
#[verifier::opaque]
spec fn guards_cycles(keys: Seq<Seq<char>>, deps: Seq<Seq<Seq<char>>>, alive: Seq<bool>) -> bool {
    forall|s: Set<Seq<char>>, x: Seq<char>|
        closed_set(keys, deps, s) && #[trigger] s.contains(x) ==> (last_index(keys, x) matches Some(j)
            && alive[j])
}

proof fn lemma_last_index_key(keys: Seq<Seq<char>>, x: Seq<char>)
    requires
        last_index(keys, x) is Some,
    ensures
        is_last(keys, x, last_index(keys, x)->0),
        keys[last_index(keys, x)->0] == x,
{
}

proof fn lemma_initial_guard(keys: Seq<Seq<char>>, deps: Seq<Seq<Seq<char>>>, alive: Seq<bool>)
    requires
        alive.len() == keys.len(),
        forall|k: int| 0 <= k < keys.len() ==> alive[k] == canonical(keys, k),
    ensures
        guards_cycles(keys, deps, alive),
        alive_canonical(keys, alive),
{
    reveal(guards_cycles);
    reveal(alive_canonical);
    assert forall|s: Set<Seq<char>>, x: Seq<char>| closed_set(keys, deps, s) && #[trigger] s.contains(x) implies (last_index(keys, x) matches Some(j) && alive[j]) by {
        lemma_last_index_key(keys, x);
        let j = last_index(keys, x)->0;
        assert(canonical(keys, j));
    }
}

proof fn lemma_peel(keys: Seq<Seq<char>>, deps: Seq<Seq<Seq<char>>>, alive: Seq<bool>, k: int)
    requires
        0 <= k < keys.len(),
        guards_cycles(keys, deps, alive),
        alive_canonical(keys, alive),
        alive[k],
        peelable(keys, deps, alive, k),
    ensures
        guards_cycles(keys, deps, alive.update(k, false)),
        alive_canonical(keys, alive.update(k, false)),
{
    reveal(guards_cycles);
    reveal(alive_canonical);
    reveal(peelable);
    let after = alive.update(k, false);
    assert(canonical(keys, k));
    assert forall|s: Set<Seq<char>>, x: Seq<char>| closed_set(keys, deps, s) && #[trigger] s.contains(x) implies (last_index(keys, x) matches Some(j) && after[j]) by {
        lemma_last_index_key(keys, x);
        let j = last_index(keys, x)->0;
        assert(alive[j]);
        if j == k {
            let c = choose|c: Seq<char>| deps[j].contains(c) && s.contains(c);
            assert(last_index(keys, c) matches Some(m) && alive[m]);
        }
    }
}

proof fn lemma_stuck_cycle(keys: Seq<Seq<char>>, deps: Seq<Seq<Seq<char>>>, alive: Seq<bool>, m: int)
    requires
        0 <= m < keys.len(),
        alive_canonical(keys, alive),
        forall|k: int| 0 <= k < keys.len() && #[trigger] alive[k] ==> !peelable(keys, deps, alive, k),
        alive[m],
    ensures
        has_cycle(keys, deps),
{
    reveal(alive_canonical);
    reveal(peelable);
    reveal(has_cycle);
    let s = Set::new(|x: Seq<char>| exists|q: int| 0 <= q < keys.len() && alive[q] && keys[q] == x);
    assert(s.contains(keys[m]));
    assert forall|x: Seq<char>| #[trigger] s.contains(x) implies (last_index(keys, x) matches Some(j)
        && exists|c: Seq<char>| deps[j].contains(c) && s.contains(c)) by {
        let q = choose|q: int| 0 <= q < keys.len() && alive[q] && keys[q] == x;
        assert(canonical(keys, q));
        assert(!peelable(keys, deps, alive, q));
        let c = choose|c: Seq<char>| #[trigger] deps[q].contains(c) && !(last_index(keys, c) matches Some(j) ==> !alive[j]);
        lemma_last_index_key(keys, c);
        let j = last_index(keys, c)->0;
        assert(s.contains(c));
    }
    assert(closed_set(keys, deps, s));
}

proof fn lemma_all_dead(keys: Seq<Seq<char>>, deps: Seq<Seq<Seq<char>>>, alive: Seq<bool>)
    requires
        alive.len() == keys.len(),
        guards_cycles(keys, deps, alive),
        forall|q: int| 0 <= q < keys.len() ==> !alive[q],
    ensures
        !has_cycle(keys, deps),
{
    reveal(guards_cycles);
    reveal(has_cycle);
    assert forall|s: Set<Seq<char>>| !closed_set(keys, deps, s) by {
        if closed_set(keys, deps, s) {
            let x = choose|x: Seq<char>| s.contains(x);
            lemma_last_index_key(keys, x);
        }
    }
}

/// Whether all dependencies of entry `i` are peeled away or not keys.
fn all_deps_dead(keys: &Vec<Vec<char>>, deps: &Vec<Vec<Vec<char>>>, alive: &Vec<bool>, i: usize) -> (r: bool)
    requires
        i < deps@.len(),
        keys@.len() == deps@.len(),
        alive@.len() == keys@.len(),
    ensures
        r == peelable(views(keys@), dep_views(deps@), alive@, i as int),
{
    reveal(peelable);
    let ghost dv = dep_views(deps@);
    let d = &deps[i];
    let mut k: usize = 0;
    while k < d.len()
        invariant
            k <= d@.len(),
            i < deps@.len(),
            dv == dep_views(deps@),
            d@ == deps@[i as int]@,
            dv[i as int] == views(d@),
            alive@.len() == keys@.len(),
            forall|m: int| 0 <= m < k ==> (last_index(views(keys@), #[trigger] views(d@)[m]) matches Some(j) ==> !alive@[j]),
        decreases d@.len() - k,
    {
        let found = find_last(keys, d[k].as_slice());
        proof {
            assert(views(d@)[k as int] == d@[k as int]@);
        }
        match found {
            Some(j) => {
                if alive[j] {
                    proof {
                        reveal(peelable);
                        assert(views(d@)[k as int] == d@[k as int]@);
                        assert(dv[i as int].contains(views(d@)[k as int]));
                        assert(!peelable(views(keys@), dv, alive@, i as int));
                    }
                    return false;
                }
            },
            None => {},
        }
        k = k + 1;
    }
    proof {
        assert forall|c: Seq<char>| #[trigger] dv[i as int].contains(c) implies (last_index(views(keys@), c) matches Some(j) ==> !alive@[j]) by {
            let m = choose|m: int| 0 <= m < views(d@).len() && views(d@)[m] == c;
        }
    }
    true
}

/// Whether the dependency graph `keys[i] -> deps[i]` has a cycle, found by
/// repeatedly peeling keys none of whose dependencies remain: a cycle is
/// exactly what can never be peeled.
pub fn has_dependency_cycle(keys: &Vec<Vec<char>>, deps: &Vec<Vec<Vec<char>>>) -> (r: bool)
    requires
        keys@.len() == deps@.len(),
    ensures
        r == has_cycle(views(keys@), dep_views(deps@)),
{
    let ghost kv = views(keys@);
    let ghost dv = dep_views(deps@);
    let n = keys.len();
    let mut alive: Vec<bool> = Vec::new();
    let mut live: usize = 0;
    let mut i: usize = 0;
    while i < n
        invariant
            i <= n,
            n == keys@.len(),
            kv == views(keys@),
            alive@.len() == i,
            live <= i,
            live == count_true(alive@),
            forall|k: int| 0 <= k < i ==> alive@[k] == canonical(kv, k),
        decreases n - i,
    {
        let last = find_last(keys, keys[i].as_slice());
        let c = match last {
            Some(j) => j == i,
            None => false,
        };
        let ghost before = alive@;
        alive.push(c);
        proof {
            assert(alive@.drop_last() =~= before);
        }
        if c {
            live = live + 1;
        }
        i = i + 1;
    }
    proof {
        lemma_initial_guard(kv, dv, alive@);
    }
    loop
        invariant
            n == keys@.len(),
            n == deps@.len(),
            kv == views(keys@),
            dv == dep_views(deps@),
            alive@.len() == n,
            alive_canonical(kv, alive@),
            guards_cycles(kv, dv, alive@),
            live <= n,
            live == count_true(alive@),
        ensures
            alive@.len() == n,
            alive_canonical(kv, alive@),
            guards_cycles(kv, dv, alive@),
            forall|k: int| 0 <= k < n && #[trigger] alive@[k] ==> !peelable(kv, dv, alive@, k),
        decreases live,
    {
        let mut changed = false;
        let ghost live_before = live;
        let mut k: usize = 0;
        while k < n
            invariant
                k <= n,
                n == keys@.len(),
                n == deps@.len(),
                kv == views(keys@),
                dv == dep_views(deps@),
                alive@.len() == n,
                alive_canonical(kv, alive@),
                guards_cycles(kv, dv, alive@),
                !changed ==> forall|m: int| 0 <= m < k && #[trigger] alive@[m] ==> !peelable(kv, dv, alive@, m),
                changed ==> live < live_before,
                !changed ==> live == live_before,
                live <= n,
                live == count_true(alive@),
            decreases n - k,
        {
            if alive[k] && all_deps_dead(keys, deps, &alive, k) {
                let ghost before = alive@;
                proof {
                    lemma_peel(kv, dv, before, k as int);
                    lemma_count_clear(before, k as int);
                }
                alive.set(k, false);
                live = live - 1;
                changed = true;
            }
            k = k + 1;
        }
        if !changed {
            break;
        }
    }
    let mut m: usize = 0;
    while m < n
        invariant
            m <= n,
            n == keys@.len(),
            kv == views(keys@),
            dv == dep_views(deps@),
            alive@.len() == n,
            alive_canonical(kv, alive@),
            guards_cycles(kv, dv, alive@),
            forall|k: int| 0 <= k < n && #[trigger] alive@[k] ==> !peelable(kv, dv, alive@, k),
            forall|q: int| 0 <= q < m ==> !alive@[q],
        decreases n - m,
    {
        if alive[m] {
            proof {
                lemma_stuck_cycle(kv, dv, alive@, m as int);
            }
            return true;
        }
        m = m + 1;
    }
    proof {
        lemma_all_dead(kv, dv, alive@);
    }
    false
}


// ---------------------------------------------------------------------------
// Requirement dependencies
// ---------------------------------------------------------------------------
pub open spec fn requirement_deps(reqs: Seq<RequirementDoc>) -> Seq<Seq<Seq<char>>> {
    Seq::new(reqs.len(), |i: int| str_views(reqs[i].dependencies@))
}

pub open spec fn task_deps(tasks: Seq<TaskDoc>) -> Seq<Seq<Seq<char>>> {
    Seq::new(tasks.len(), |i: int| str_views(tasks[i].dependencies@))
}

/// Self-dependency and unknown-reference issues of one owner's
/// dependencies, in order.
pub open spec fn dependency_issues(
    owner: Seq<char>,
    deps: Seq<Seq<char>>,
    known: Seq<Seq<char>>,
    self_code: Seq<char>,
    unknown_code: Seq<char>,
) -> Seq<Seq<char>>
    decreases deps.len(),
{
    if deps.len() == 0 {
        seq![]
    } else {
        let d = deps.last();
        dependency_issues(owner, deps.drop_last(), known, self_code, unknown_code) + issue_if(
            d == owner,
            self_code + owner,
        ) + issue_if(!known.contains(d), unknown_code + owner + " -> "@ + d)
    }
}

/// Dependency issues of every owner in order.
pub open spec fn all_dependency_issues(
    owners: Seq<Seq<char>>,
    deps: Seq<Seq<Seq<char>>>,
    known: Seq<Seq<char>>,
    self_code: Seq<char>,
    unknown_code: Seq<char>,
) -> Seq<Seq<char>>
    decreases owners.len(),
{
    if owners.len() == 0 || deps.len() < owners.len() {
        seq![]
    } else {
        all_dependency_issues(owners.drop_last(), deps, known, self_code, unknown_code)
            + dependency_issues(owners.last(), deps[owners.len() - 1], known, self_code, unknown_code)
    }
}

/// The issues of the requirement dependency checks.
pub open spec fn requirement_dependency_issues(reqs: Seq<RequirementDoc>) -> Seq<Seq<char>> {
    all_dependency_issues(
        requirement_ids(reqs),
        requirement_deps(reqs),
        requirement_ids(reqs),
        "SDD_REQUIREMENT_SELF_DEPENDENCY: "@,
        "SDD_UNKNOWN_REQUIREMENT_REFERENCE: "@,
    ) + issue_if(
        has_cycle(requirement_ids(reqs), requirement_deps(reqs)),
        "SDD_REQUIREMENT_DEPENDENCY_CYCLE"@,
    )
}

/// Appends the dependency issues of one owner.
pub fn check_dependencies(
    issues: &mut Vec<String>,
    owner: &String,
    deps: &Vec<String>,
    known: &Vec<Vec<char>>,
    self_code: &str,
    unknown_code: &str,
)
    ensures
        str_views(final(issues)@) == str_views(old(issues)@) + dependency_issues(
            owner@,
            str_views(deps@),
            views(known@),
            self_code@,
            unknown_code@,
        ),
{
    let ghost base = str_views(issues@);
    let ghost dv = str_views(deps@);
    let ow = chars_of(owner.as_str());
    let mut k: usize = 0;
    assert(dv.take(0) =~= Seq::<Seq<char>>::empty());
    while k < deps.len()
        invariant
            k <= dv.len(),
            dv == str_views(deps@),
            ow@ == owner@,
            str_views(issues@) == base + dependency_issues(owner@, dv.take(k as int), views(known@), self_code@, unknown_code@),
        decreases dv.len() - k,
    {
        let d = chars_of(deps[k].as_str());
        proof {
            assert(dv.take(k + 1).drop_last() =~= dv.take(k as int));
            assert(dv.take(k + 1).last() == d@);
        }
        let ghost mid0 = str_views(issues@);
        if chars_equal(d.as_slice(), ow.as_slice()) {
            let mut m = String::from_str(self_code);
            m.append(owner.as_str());
            issues.push(m);
        }
        let ghost mid = str_views(issues@);
        assert(mid =~= mid0 + issue_if(d@ == owner@, self_code@ + owner@));
        if !list_contains(known, d.as_slice()) {
            let mut m = String::from_str(unknown_code);
            m.append(owner.as_str());
            m.append(" -> ");
            m.append(deps[k].as_str());
            issues.push(m);
        }
        proof {
            assert(str_views(issues@) =~= mid + issue_if(
                !views(known@).contains(d@),
                unknown_code@ + owner@ + " -> "@ + d@,
            ));
        }
        k = k + 1;
    }
    assert(dv.take(dv.len() as int) =~= dv);
}

pub fn requirement_id_lists(reqs: &Vec<RequirementDoc>) -> (r: (Vec<Vec<char>>, Vec<Vec<Vec<char>>>))
    ensures
        views(r.0@) == requirement_ids(reqs@),
        dep_views(r.1@) == requirement_deps(reqs@),
        r.0@.len() == r.1@.len(),
{
    let mut ids: Vec<Vec<char>> = Vec::new();
    let mut deps: Vec<Vec<Vec<char>>> = Vec::new();
    let mut i: usize = 0;
    while i < reqs.len()
        invariant
            i <= reqs@.len(),
            ids@.len() == i,
            deps@.len() == i,
            forall|j: int| 0 <= j < i ==> (#[trigger] ids@[j])@ == reqs@[j].id@,
            forall|j: int| 0 <= j < i ==> views((#[trigger] deps@[j])@) == str_views(reqs@[j].dependencies@),
        decreases reqs@.len() - i,
    {
        ids.push(chars_of(reqs[i].id.as_str()));
        deps.push(char_lists(&reqs[i].dependencies));
        i = i + 1;
    }
    assert(views(ids@) =~= requirement_ids(reqs@));
    assert(dep_views(deps@) =~= requirement_deps(reqs@));
    (ids, deps)
}

pub fn task_id_lists(tasks: &Vec<TaskDoc>) -> (r: (Vec<Vec<char>>, Vec<Vec<Vec<char>>>))
    ensures
        views(r.0@) == task_ids(tasks@),
        dep_views(r.1@) == task_deps(tasks@),
        r.0@.len() == r.1@.len(),
{
    let mut ids: Vec<Vec<char>> = Vec::new();
    let mut deps: Vec<Vec<Vec<char>>> = Vec::new();
    let mut i: usize = 0;
    while i < tasks.len()
        invariant
            i <= tasks@.len(),
            ids@.len() == i,
            deps@.len() == i,
            forall|j: int| 0 <= j < i ==> (#[trigger] ids@[j])@ == tasks@[j].id@,
            forall|j: int| 0 <= j < i ==> views((#[trigger] deps@[j])@) == str_views(tasks@[j].dependencies@),
        decreases tasks@.len() - i,
    {
        ids.push(chars_of(tasks[i].id.as_str()));
        deps.push(char_lists(&tasks[i].dependencies));
        i = i + 1;
    }
    assert(views(ids@) =~= task_ids(tasks@));
    assert(dep_views(deps@) =~= task_deps(tasks@));
    (ids, deps)
}

/// Checks requirement dependencies: no self-dependency, no reference to an
/// unknown requirement, no cycle.
pub fn validate_requirement_dependencies(structure: &mut ChangeStructure)
    ensures
        final(structure).requirements == old(structure).requirements,
        final(structure).tasks == old(structure).tasks,
        final(structure).coverage == old(structure).coverage,
        final(structure).has_tasks == old(structure).has_tasks,
        final(structure).evidence_ids == old(structure).evidence_ids,
        str_views(final(structure).issues@) == str_views(old(structure).issues@)
            + requirement_dependency_issues(old(structure).requirements@),
{
    let ghost base = str_views(structure.issues@);
    let ghost reqs = structure.requirements@;
    let (ids, deps) = requirement_id_lists(&structure.requirements);
    let mut i: usize = 0;
    assert(requirement_ids(reqs).take(0) =~= Seq::<Seq<char>>::empty());
    while i < structure.requirements.len()
        invariant
            structure.requirements == old(structure).requirements,
            structure.tasks == old(structure).tasks,
            structure.coverage == old(structure).coverage,
            structure.has_tasks == old(structure).has_tasks,
            structure.evidence_ids == old(structure).evidence_ids,
            reqs == structure.requirements@,
            i <= reqs.len(),
            views(ids@) == requirement_ids(reqs),
            dep_views(deps@) == requirement_deps(reqs),
            ids@.len() == deps@.len(),
            str_views(structure.issues@) == base + all_dependency_issues(
                requirement_ids(reqs).take(i as int),
                requirement_deps(reqs),
                requirement_ids(reqs),
                "SDD_REQUIREMENT_SELF_DEPENDENCY: "@,
                "SDD_UNKNOWN_REQUIREMENT_REFERENCE: "@,
            ),
        decreases reqs.len() - i,
    {
        let ghost before = str_views(structure.issues@);
        check_dependencies(
            &mut structure.issues,
            &structure.requirements[i].id,
            &structure.requirements[i].dependencies,
            &ids,
            "SDD_REQUIREMENT_SELF_DEPENDENCY: ",
            "SDD_UNKNOWN_REQUIREMENT_REFERENCE: ",
        );
        proof {
            let o = requirement_ids(reqs).take(i + 1);
            assert(o.drop_last() =~= requirement_ids(reqs).take(i as int));
            assert(o.last() == reqs[i as int].id@);
            assert(requirement_deps(reqs)[i as int] == str_views(reqs[i as int].dependencies@));
        }
        i = i + 1;
    }
    assert(requirement_ids(reqs).take(reqs.len() as int) =~= requirement_ids(reqs));
    let ghost after_loop = str_views(structure.issues@);
    let cyclic = has_dependency_cycle(&ids, &deps);
    if cyclic {
        structure.issues.push(String::from_str("SDD_REQUIREMENT_DEPENDENCY_CYCLE"));
    }
    proof {
        assert(cyclic == has_cycle(requirement_ids(reqs), requirement_deps(reqs)));
        assert(str_views(structure.issues@) =~= after_loop + issue_if(
            has_cycle(requirement_ids(reqs), requirement_deps(reqs)),
            "SDD_REQUIREMENT_DEPENDENCY_CYCLE"@,
        ));
        assert(str_views(structure.issues@) =~= base + requirement_dependency_issues(reqs));
    }
}

} // verus!
