//! Task checks of an SDD change: task fields, references, dependencies and
//! the coverage matrix that ties requirements, acceptance criteria and tasks
//! together.

use vstd::prelude::*;
use crate::sdd_check::{
    all_dependency_issues, dependency_issues, has_cycle, issue_if, lower_in, lower_in_options,
    priorities, requirement_ids, strings_contain, task_deps, task_ids, ChangeStructure,
};
use crate::sdd_parse::{CoverageRow, RequirementDoc, TaskDoc};
use crate::text::{
    ascii_lower_seq, chars_of, eq_ignore_case, eq_ignore_case_str, str_views, trim, views,
};

verus! {

pub open spec fn task_statuses() -> Seq<Seq<char>> {
    seq!["todo"@, "doing"@, "blocked"@, "done"@, "dropped"@]
}

pub open spec fn task_types() -> Seq<Seq<char>> {
    seq!["code"@, "test"@, "config"@, "data"@, "docs"@, "review"@, "release"@]
}

/// An optional note that is missing or blank.
pub open spec fn blank_note(o: Option<String>) -> bool {
    match o {
        Some(s) => trim(s@).len() == 0,
        None => true,
    }
}

/// Issues with the required fields of one task.
pub open spec fn task_value_issues(t: TaskDoc) -> Seq<Seq<char>> {
    issue_if(t.requirement_refs@.len() == 0, t.id@ + " 缺少 Requirement refs"@) + issue_if(
        !t.has_definition,
        t.id@ + " 缺少完成定义"@,
    ) + issue_if(!lower_in(t.status@, task_statuses()), t.id@ + " 的 Status 非法"@) + issue_if(
        !lower_in(t.priority@, priorities()),
        t.id@ + " 的 Priority 必须是 must/should/may"@,
    ) + issue_if(!lower_in(t.task_type@, task_types()), t.id@ + " 的 Type 非法"@)
}

/// Issues with the notes a blocked or dropped task must carry.
pub open spec fn task_note_issues(t: TaskDoc) -> Seq<Seq<char>> {
    let status = ascii_lower_seq(t.status@);
    issue_if(
        status == "blocked"@ && blank_note(t.blocked_reason),
        t.id@ + " blocked 必须填写 Blocked reason"@,
    ) + issue_if(
        status == "blocked"@ && blank_note(t.unblock_condition),
        t.id@ + " blocked 必须填写 Unblock condition"@,
    ) + issue_if(
        status == "dropped"@ && blank_note(t.dropped_reason),
        t.id@ + " dropped 必须填写 Dropped reason"@,
    )
}

/// Issues with the fields of one task.
pub open spec fn task_field_issues(t: TaskDoc) -> Seq<Seq<char>> {
    task_value_issues(t) + task_note_issues(t)
}

/// Issues of the requirement references `refs` of task `t`: unknown
/// requirements, and must-requirements covered by a task that is not must.
pub open spec fn requirement_ref_issues(t: TaskDoc, refs: Seq<Seq<char>>, reqs: Seq<RequirementDoc>) -> Seq<Seq<char>>
    decreases refs.len(),
{
    if refs.len() == 0 {
        seq![]
    } else {
        let r = refs.last();
        requirement_ref_issues(t, refs.drop_last(), reqs) + match crate::sdd_check::last_index(
            requirement_ids(reqs),
            r,
        ) {
            Some(j) => issue_if(
                eq_ignore_case(reqs[j].priority@, "must"@) && !eq_ignore_case(t.priority@, "must"@),
                t.id@ + " 覆盖 must 需求但任务优先级不是 must"@,
            ),
            None => seq![t.id@ + " 引用了不存在的 "@ + r],
        }
    }
}

/// Some requirement declares the acceptance criterion `a`.
pub open spec fn declared_acceptance(reqs: Seq<RequirementDoc>, a: Seq<char>) -> bool {
    exists|i: int| 0 <= i < reqs.len() && str_views((#[trigger] reqs[i]).acceptance_ids@).contains(a)
}

/// Issues of acceptance references that no requirement declares.
pub open spec fn acceptance_ref_issues(t: TaskDoc, accs: Seq<Seq<char>>, reqs: Seq<RequirementDoc>) -> Seq<Seq<char>>
    decreases accs.len(),
{
    if accs.len() == 0 {
        seq![]
    } else {
        acceptance_ref_issues(t, accs.drop_last(), reqs) + issue_if(
            !declared_acceptance(reqs, accs.last()),
            t.id@ + " 引用了不存在的 "@ + accs.last(),
        )
    }
}

/// All issues of one task.
pub open spec fn task_issues(t: TaskDoc, reqs: Seq<RequirementDoc>, tasks: Seq<TaskDoc>) -> Seq<Seq<char>> {
    task_field_issues(t) + requirement_ref_issues(t, str_views(t.requirement_refs@), reqs)
        + acceptance_ref_issues(t, str_views(t.acceptance_refs@), reqs) + dependency_issues(
        t.id@,
        str_views(t.dependencies@),
        task_ids(tasks),
        "SDD_TASK_SELF_DEPENDENCY: "@,
        "SDD_UNKNOWN_TASK_REFERENCE: "@,
    )
}

/// Issues of the tasks `ts` in order.
pub open spec fn tasks_issues(ts: Seq<TaskDoc>, reqs: Seq<RequirementDoc>, tasks: Seq<TaskDoc>) -> Seq<Seq<char>>
    decreases ts.len(),
{
    if ts.len() == 0 {
        seq![]
    } else {
        tasks_issues(ts.drop_last(), reqs, tasks) + task_issues(ts.last(), reqs, tasks)
    }
}

/// A task that is not dropped lists the acceptance criterion `a`.
pub open spec fn task_covers(tasks: Seq<TaskDoc>, a: Seq<char>) -> bool {
    exists|i: int|
        0 <= i < tasks.len() && !eq_ignore_case((#[trigger] tasks[i]).status@, "dropped"@) && str_views(
            tasks[i].acceptance_refs@,
        ).contains(a)
}

/// The coverage matrix has a row for requirement `r` and criterion `a`.
pub open spec fn matrix_covers(rows: Seq<CoverageRow>, r: Seq<char>, a: Seq<char>) -> bool {
    exists|k: int| 0 <= k < rows.len() && (#[trigger] rows[k]).requirement@ == r && rows[k].acceptance@ == a
}

/// Issues of the acceptance criteria `accs` of must-requirement `r`.
pub open spec fn must_acceptance_issues(
    r: RequirementDoc,
    accs: Seq<Seq<char>>,
    tasks: Seq<TaskDoc>,
    rows: Seq<CoverageRow>,
) -> Seq<Seq<char>>
    decreases accs.len(),
{
    if accs.len() == 0 {
        seq![]
    } else {
        let a = accs.last();
        must_acceptance_issues(r, accs.drop_last(), tasks, rows) + issue_if(
            !task_covers(tasks, a),
            r.id@ + " / "@ + a + " 没有任务覆盖"@,
        ) + issue_if(!matrix_covers(rows, r.id@, a), "覆盖矩阵缺少 "@ + r.id@ + " / "@ + a)
    }
}

/// Issues of every must-requirement's acceptance criteria.
pub open spec fn must_issues(rs: Seq<RequirementDoc>, tasks: Seq<TaskDoc>, rows: Seq<CoverageRow>) -> Seq<Seq<char>>
    decreases rs.len(),
{
    if rs.len() == 0 {
        seq![]
    } else {
        let r = rs.last();
        must_issues(rs.drop_last(), tasks, rows) + if eq_ignore_case(r.priority@, "must"@) {
            must_acceptance_issues(r, str_views(r.acceptance_ids@), tasks, rows)
        } else {
            seq![]
        }
    }
}

/// The first task with identifier `x`.
pub open spec fn first_task(tasks: Seq<TaskDoc>, x: Seq<char>) -> Option<int> {
    if exists|i: int| 0 <= i < tasks.len() && tasks[i].id@ == x {
        Some(choose|i: int| 0 <= i < tasks.len() && tasks[i].id@ == x && forall|k: int| 0 <= k < i ==> tasks[k].id@ != x)
    } else {
        None
    }
}

/// Some requirement `row.requirement` declares `row.acceptance`.
pub open spec fn row_declared(reqs: Seq<RequirementDoc>, row: CoverageRow) -> bool {
    exists|i: int|
        0 <= i < reqs.len() && (#[trigger] reqs[i]).id@ == row.requirement@ && str_views(
            reqs[i].acceptance_ids@,
        ).contains(row.acceptance@)
}

/// Issues of one coverage row.
pub open spec fn row_issues(row: CoverageRow, tasks: Seq<TaskDoc>, reqs: Seq<RequirementDoc>) -> Seq<Seq<char>> {
    issue_if(!task_ids(tasks).contains(row.task@), "覆盖矩阵引用不存在的 "@ + row.task@) + issue_if(
        !row_declared(reqs, row),
        "覆盖矩阵引用不存在的 "@ + row.requirement@ + " / "@ + row.acceptance@,
    ) + match first_task(tasks, row.task@) {
        Some(i) => issue_if(
            !str_views(tasks[i].requirement_refs@).contains(row.requirement@) || !str_views(
                tasks[i].acceptance_refs@,
            ).contains(row.acceptance@),
            "覆盖矩阵与 "@ + row.task@ + " 的 Requirement refs/Acceptance refs 不一致"@,
        ),
        None => seq![],
    }
}

pub open spec fn rows_issues(rows: Seq<CoverageRow>, tasks: Seq<TaskDoc>, reqs: Seq<RequirementDoc>) -> Seq<Seq<char>>
    decreases rows.len(),
{
    if rows.len() == 0 {
        seq![]
    } else {
        rows_issues(rows.drop_last(), tasks, reqs) + row_issues(rows.last(), tasks, reqs)
    }
}

/// The matrix declares criterion `a` for task `t` with one of its
/// requirements.
pub open spec fn row_declares(rows: Seq<CoverageRow>, t: TaskDoc, a: Seq<char>) -> bool {
    exists|k: int|
        0 <= k < rows.len() && (#[trigger] rows[k]).task@ == t.id@ && rows[k].acceptance@ == a
            && str_views(t.requirement_refs@).contains(rows[k].requirement@)
}

pub open spec fn declaration_issues(t: TaskDoc, accs: Seq<Seq<char>>, rows: Seq<CoverageRow>) -> Seq<Seq<char>>
    decreases accs.len(),
{
    if accs.len() == 0 {
        seq![]
    } else {
        declaration_issues(t, accs.drop_last(), rows) + issue_if(
            !row_declares(rows, t, accs.last()),
            "覆盖矩阵缺少 "@ + t.id@ + " / "@ + accs.last() + " 的声明"@,
        )
    }
}

pub open spec fn all_declaration_issues(ts: Seq<TaskDoc>, rows: Seq<CoverageRow>) -> Seq<Seq<char>>
    decreases ts.len(),
{
    if ts.len() == 0 {
        seq![]
    } else {
        all_declaration_issues(ts.drop_last(), rows) + declaration_issues(
            ts.last(),
            str_views(ts.last().acceptance_refs@),
            rows,
        )
    }
}

/// The issues of the task checks of a change that has tasks.
pub open spec fn task_check_issues(
    reqs: Seq<RequirementDoc>,
    tasks: Seq<TaskDoc>,
    rows: Seq<CoverageRow>,
) -> Seq<Seq<char>> {
    tasks_issues(tasks, reqs, tasks) + issue_if(
        has_cycle(task_ids(tasks), task_deps(tasks)),
        "SDD_TASK_DEPENDENCY_CYCLE"@,
    ) + must_issues(reqs, tasks, rows) + rows_issues(rows, tasks, reqs) + all_declaration_issues(
        tasks,
        rows,
    )
}


fn blank_opt(o: &Option<String>) -> (r: bool)
    ensures
        r == blank_note(*o),
{
    match o {
        Some(s) => {
            let v = chars_of(s.as_str());
            let t = crate::text::trim_chars(v.as_slice());
            t.len() == 0
        },
        None => true,
    }
}

fn push_message(issues: &mut Vec<String>, a: &str, b: &str)
    ensures
        str_views(final(issues)@) == str_views(old(issues)@).push(a@ + b@),
{
    let mut m = String::from_str(a);
    m.append(b);
    issues.push(m);
    assert(str_views(issues@) =~= str_views(old(issues)@).push(a@ + b@));
}

fn check_task_values(issues: &mut Vec<String>, t: &TaskDoc)
    ensures
        str_views(final(issues)@) == str_views(old(issues)@) + task_value_issues(*t),
{
    let ghost base = str_views(issues@);
    let id = t.id.as_str();
    if t.requirement_refs.len() == 0 {
        push_message(issues, id, " 缺少 Requirement refs");
    }
    let ghost s1 = str_views(issues@);
    assert(s1 =~= base + issue_if(t.requirement_refs@.len() == 0, t.id@ + " 缺少 Requirement refs"@));
    if !t.has_definition {
        push_message(issues, id, " 缺少完成定义");
    }
    let ghost s2 = str_views(issues@);
    assert(s2 =~= s1 + issue_if(!t.has_definition, t.id@ + " 缺少完成定义"@));
    let status_names = ["todo", "doing", "blocked", "done", "dropped"];
    assert(status_names@[0] == "todo" && status_names@[1] == "doing" && status_names@[2] == "blocked"
        && status_names@[3] == "done" && status_names@[4] == "dropped");
    if !lower_in_options(t.status.as_str(), status_names.as_slice(), Ghost(task_statuses())) {
        push_message(issues, id, " 的 Status 非法");
    }
    let ghost s3 = str_views(issues@);
    assert(s3 =~= s2 + issue_if(!lower_in(t.status@, task_statuses()), t.id@ + " 的 Status 非法"@));
    let priority_names = ["must", "should", "may"];
    assert(priority_names@[0] == "must" && priority_names@[1] == "should" && priority_names@[2] == "may");
    if !lower_in_options(t.priority.as_str(), priority_names.as_slice(), Ghost(priorities())) {
        push_message(issues, id, " 的 Priority 必须是 must/should/may");
    }
    let ghost s4 = str_views(issues@);
    assert(s4 =~= s3 + issue_if(
        !lower_in(t.priority@, priorities()),
        t.id@ + " 的 Priority 必须是 must/should/may"@,
    ));
    let type_names = ["code", "test", "config", "data", "docs", "review", "release"];
    assert(type_names@[0] == "code" && type_names@[1] == "test" && type_names@[2] == "config"
        && type_names@[3] == "data" && type_names@[4] == "docs" && type_names@[5] == "review"
        && type_names@[6] == "release");
    if !lower_in_options(t.task_type.as_str(), type_names.as_slice(), Ghost(task_types())) {
        push_message(issues, id, " 的 Type 非法");
    }
    proof {
        assert(str_views(issues@) =~= s4 + issue_if(!lower_in(t.task_type@, task_types()), t.id@ + " 的 Type 非法"@));
        assert(str_views(issues@) =~= base + task_value_issues(*t));
    }
}

fn check_task_notes(issues: &mut Vec<String>, t: &TaskDoc)
    ensures
        str_views(final(issues)@) == str_views(old(issues)@) + task_note_issues(*t),
{
    let ghost base = str_views(issues@);
    let id = t.id.as_str();
    let sv = chars_of(t.status.as_str());
    let lower = crate::text::ascii_lowercase(sv.as_slice());
    let blocked = crate::text::chars_equal_str(lower.as_slice(), "blocked");
    let dropped = crate::text::chars_equal_str(lower.as_slice(), "dropped");
    if blocked && blank_opt(&t.blocked_reason) {
        push_message(issues, id, " blocked 必须填写 Blocked reason");
    }
    let ghost s6 = str_views(issues@);
    assert(s6 =~= base + issue_if(
        ascii_lower_seq(t.status@) == "blocked"@ && blank_note(t.blocked_reason),
        t.id@ + " blocked 必须填写 Blocked reason"@,
    ));
    if blocked && blank_opt(&t.unblock_condition) {
        push_message(issues, id, " blocked 必须填写 Unblock condition");
    }
    let ghost s7 = str_views(issues@);
    assert(s7 =~= s6 + issue_if(
        ascii_lower_seq(t.status@) == "blocked"@ && blank_note(t.unblock_condition),
        t.id@ + " blocked 必须填写 Unblock condition"@,
    ));
    if dropped && blank_opt(&t.dropped_reason) {
        push_message(issues, id, " dropped 必须填写 Dropped reason");
    }
    proof {
        assert(str_views(issues@) =~= s7 + issue_if(
            ascii_lower_seq(t.status@) == "dropped"@ && blank_note(t.dropped_reason),
            t.id@ + " dropped 必须填写 Dropped reason"@,
        ));
        assert(str_views(issues@) =~= base + task_note_issues(*t));
    }
}

fn is_declared_acceptance(reqs: &Vec<RequirementDoc>, a: &str) -> (r: bool)
    ensures
        r == declared_acceptance(reqs@, a@),
{
    let mut i: usize = 0;
    while i < reqs.len()
        invariant
            i <= reqs@.len(),
            forall|j: int| 0 <= j < i ==> !str_views((#[trigger] reqs@[j]).acceptance_ids@).contains(a@),
        decreases reqs@.len() - i,
    {
        if strings_contain(&reqs[i].acceptance_ids, a) {
            return true;
        }
        i = i + 1;
    }
    false
}

fn check_requirement_refs(
    issues: &mut Vec<String>,
    t: &TaskDoc,
    reqs: &Vec<RequirementDoc>,
    req_ids: &Vec<Vec<char>>,
)
    requires
        views(req_ids@) == requirement_ids(reqs@),
    ensures
        str_views(final(issues)@) == str_views(old(issues)@) + requirement_ref_issues(
            *t,
            str_views(t.requirement_refs@),
            reqs@,
        ),
{
    let ghost base = str_views(issues@);
    let ghost rv = str_views(t.requirement_refs@);
    let must_task = eq_ignore_case_str(chars_of(t.priority.as_str()).as_slice(), "must");
    let mut k: usize = 0;
    assert(rv.take(0) =~= Seq::<Seq<char>>::empty());
    while k < t.requirement_refs.len()
        invariant
            k <= rv.len(),
            rv == str_views(t.requirement_refs@),
            views(req_ids@) == requirement_ids(reqs@),
            must_task == eq_ignore_case(t.priority@, "must"@),
            str_views(issues@) == base + requirement_ref_issues(*t, rv.take(k as int), reqs@),
        decreases rv.len() - k,
    {
        let r = &t.requirement_refs[k];
        proof {
            assert(rv.take(k + 1).drop_last() =~= rv.take(k as int));
            assert(rv.take(k + 1).last() == r@);
        }
        let rc = chars_of(r.as_str());
        let ghost before = str_views(issues@);
        match crate::sdd_check::find_last_id(req_ids, rc.as_slice()) {
            Some(j) => {
                let must_req = eq_ignore_case_str(chars_of(reqs[j].priority.as_str()).as_slice(), "must");
                if must_req && !must_task {
                    push_message(issues, t.id.as_str(), " 覆盖 must 需求但任务优先级不是 must");
                }
                proof {
                    assert(str_views(issues@) =~= before + issue_if(
                        eq_ignore_case(reqs@[j as int].priority@, "must"@) && !eq_ignore_case(t.priority@, "must"@),
                        t.id@ + " 覆盖 must 需求但任务优先级不是 must"@,
                    ));
                }
            },
            None => {
                let mut m = t.id.clone();
                m.append(" 引用了不存在的 ");
                m.append(r.as_str());
                issues.push(m);
                proof {
                    assert(str_views(issues@) =~= before + seq![t.id@ + " 引用了不存在的 "@ + r@]);
                }
            },
        }
        k = k + 1;
    }
    assert(rv.take(rv.len() as int) =~= rv);
}

fn check_acceptance_refs(issues: &mut Vec<String>, t: &TaskDoc, reqs: &Vec<RequirementDoc>)
    ensures
        str_views(final(issues)@) == str_views(old(issues)@) + acceptance_ref_issues(
            *t,
            str_views(t.acceptance_refs@),
            reqs@,
        ),
{
    let ghost base = str_views(issues@);
    let ghost av = str_views(t.acceptance_refs@);
    let mut k: usize = 0;
    assert(av.take(0) =~= Seq::<Seq<char>>::empty());
    while k < t.acceptance_refs.len()
        invariant
            k <= av.len(),
            av == str_views(t.acceptance_refs@),
            str_views(issues@) == base + acceptance_ref_issues(*t, av.take(k as int), reqs@),
        decreases av.len() - k,
    {
        let a = &t.acceptance_refs[k];
        proof {
            assert(av.take(k + 1).drop_last() =~= av.take(k as int));
            assert(av.take(k + 1).last() == a@);
        }
        let ghost before = str_views(issues@);
        if !is_declared_acceptance(reqs, a.as_str()) {
            let mut m = t.id.clone();
            m.append(" 引用了不存在的 ");
            m.append(a.as_str());
            issues.push(m);
        }
        proof {
            assert(str_views(issues@) =~= before + issue_if(
                !declared_acceptance(reqs@, a@),
                t.id@ + " 引用了不存在的 "@ + a@,
            ));
        }
        k = k + 1;
    }
    assert(av.take(av.len() as int) =~= av);
}


fn same(a: &String, b: &String) -> (r: bool)
    ensures
        r == (a@ == b@),
{
    let x = chars_of(a.as_str());
    let y = chars_of(b.as_str());
    crate::text::chars_equal(x.as_slice(), y.as_slice())
}

fn any_task_covers(tasks: &Vec<TaskDoc>, a: &String) -> (r: bool)
    ensures
        r == task_covers(tasks@, a@),
{
    let mut i: usize = 0;
    while i < tasks.len()
        invariant
            i <= tasks@.len(),
            forall|j: int| 0 <= j < i ==> !(!eq_ignore_case((#[trigger] tasks@[j]).status@, "dropped"@) && str_views(
                tasks@[j].acceptance_refs@,
            ).contains(a@)),
        decreases tasks@.len() - i,
    {
        let dropped = eq_ignore_case_str(chars_of(tasks[i].status.as_str()).as_slice(), "dropped");
        if !dropped && strings_contain(&tasks[i].acceptance_refs, a.as_str()) {
            return true;
        }
        i = i + 1;
    }
    false
}

fn matrix_has(rows: &Vec<CoverageRow>, r: &String, a: &String) -> (res: bool)
    ensures
        res == matrix_covers(rows@, r@, a@),
{
    let mut k: usize = 0;
    while k < rows.len()
        invariant
            k <= rows@.len(),
            forall|j: int| 0 <= j < k ==> !((#[trigger] rows@[j]).requirement@ == r@ && rows@[j].acceptance@ == a@),
        decreases rows@.len() - k,
    {
        if same(&rows[k].requirement, r) && same(&rows[k].acceptance, a) {
            return true;
        }
        k = k + 1;
    }
    false
}

fn check_must_acceptances(
    issues: &mut Vec<String>,
    r: &RequirementDoc,
    tasks: &Vec<TaskDoc>,
    rows: &Vec<CoverageRow>,
)
    ensures
        str_views(final(issues)@) == str_views(old(issues)@) + must_acceptance_issues(
            *r,
            str_views(r.acceptance_ids@),
            tasks@,
            rows@,
        ),
{
    let ghost base = str_views(issues@);
    let ghost av = str_views(r.acceptance_ids@);
    let mut k: usize = 0;
    assert(av.take(0) =~= Seq::<Seq<char>>::empty());
    while k < r.acceptance_ids.len()
        invariant
            k <= av.len(),
            av == str_views(r.acceptance_ids@),
            str_views(issues@) == base + must_acceptance_issues(*r, av.take(k as int), tasks@, rows@),
        decreases av.len() - k,
    {
        let a = &r.acceptance_ids[k];
        proof {
            assert(av.take(k + 1).drop_last() =~= av.take(k as int));
            assert(av.take(k + 1).last() == a@);
        }
        let ghost before = str_views(issues@);
        if !any_task_covers(tasks, a) {
            let mut m = r.id.clone();
            m.append(" / ");
            m.append(a.as_str());
            m.append(" 没有任务覆盖");
            issues.push(m);
        }
        let ghost mid = str_views(issues@);
        assert(mid =~= before + issue_if(!task_covers(tasks@, a@), r.id@ + " / "@ + a@ + " 没有任务覆盖"@));
        if !matrix_has(rows, &r.id, a) {
            let mut m = String::from_str("覆盖矩阵缺少 ");
            m.append(r.id.as_str());
            m.append(" / ");
            m.append(a.as_str());
            issues.push(m);
        }
        proof {
            assert(str_views(issues@) =~= mid + issue_if(
                !matrix_covers(rows@, r.id@, a@),
                "覆盖矩阵缺少 "@ + r.id@ + " / "@ + a@,
            ));
        }
        k = k + 1;
    }
    assert(av.take(av.len() as int) =~= av);
}

fn requirement_declares(reqs: &Vec<RequirementDoc>, row: &CoverageRow) -> (r: bool)
    ensures
        r == row_declared(reqs@, *row),
{
    let mut i: usize = 0;
    while i < reqs.len()
        invariant
            i <= reqs@.len(),
            forall|j: int| 0 <= j < i ==> !((#[trigger] reqs@[j]).id@ == row.requirement@ && str_views(
                reqs@[j].acceptance_ids@,
            ).contains(row.acceptance@)),
        decreases reqs@.len() - i,
    {
        if same(&reqs[i].id, &row.requirement) && strings_contain(&reqs[i].acceptance_ids, row.acceptance.as_str()) {
            return true;
        }
        i = i + 1;
    }
    false
}

fn first_task_index(tasks: &Vec<TaskDoc>, x: &String) -> (r: Option<usize>)
    ensures
        match r {
            Some(i) => first_task(tasks@, x@) == Some(i as int) && i < tasks@.len(),
            None => first_task(tasks@, x@) is None,
        },
{
    let mut i: usize = 0;
    while i < tasks.len()
        invariant
            i <= tasks@.len(),
            forall|k: int| 0 <= k < i ==> (#[trigger] tasks@[k]).id@ != x@,
        decreases tasks@.len() - i,
    {
        if same(&tasks[i].id, x) {
            proof {
                let c = choose|c: int| 0 <= c < tasks@.len() && tasks@[c].id@ == x@ && forall|k: int| 0 <= k < c ==> tasks@[k].id@ != x@;
                if c < i {
                } else if c > i {
                    assert(tasks@[i as int].id@ == x@);
                }
            }
            return Some(i);
        }
        i = i + 1;
    }
    None
}

#[verifier::rlimit(40)]
fn check_row(issues: &mut Vec<String>, row: &CoverageRow, tasks: &Vec<TaskDoc>, reqs: &Vec<RequirementDoc>, ids: &Vec<Vec<char>>)
    requires
        views(ids@) == task_ids(tasks@),
    ensures
        str_views(final(issues)@) == str_views(old(issues)@) + row_issues(*row, tasks@, reqs@),
{
    let ghost base = str_views(issues@);
    let tc = chars_of(row.task.as_str());
    if !crate::sdd_check::list_contains(ids, tc.as_slice()) {
        push_message(issues, "覆盖矩阵引用不存在的 ", row.task.as_str());
    }
    let ghost s1 = str_views(issues@);
    assert(s1 =~= base + issue_if(!task_ids(tasks@).contains(row.task@), "覆盖矩阵引用不存在的 "@ + row.task@));
    if !requirement_declares(reqs, row) {
        let mut m = String::from_str("覆盖矩阵引用不存在的 ");
        m.append(row.requirement.as_str());
        m.append(" / ");
        m.append(row.acceptance.as_str());
        issues.push(m);
    }
    let ghost s2 = str_views(issues@);
    assert(s2 =~= s1 + issue_if(
        !row_declared(reqs@, *row),
        "覆盖矩阵引用不存在的 "@ + row.requirement@ + " / "@ + row.acceptance@,
    ));
    match first_task_index(tasks, &row.task) {
        Some(i) => {
            let t = &tasks[i];
            if !strings_contain(&t.requirement_refs, row.requirement.as_str()) || !strings_contain(
                &t.acceptance_refs,
                row.acceptance.as_str(),
            ) {
                let mut m = String::from_str("覆盖矩阵与 ");
                m.append(row.task.as_str());
                m.append(" 的 Requirement refs/Acceptance refs 不一致");
                issues.push(m);
            }
            proof {
                assert(str_views(issues@) =~= s2 + issue_if(
                    !str_views(tasks@[i as int].requirement_refs@).contains(row.requirement@) || !str_views(
                        tasks@[i as int].acceptance_refs@,
                    ).contains(row.acceptance@),
                    "覆盖矩阵与 "@ + row.task@ + " 的 Requirement refs/Acceptance refs 不一致"@,
                ));
            }
        },
        None => {
            assert(str_views(issues@) =~= s2 + Seq::<Seq<char>>::empty());
        },
    }
    proof {
        assert(str_views(issues@) =~= base + row_issues(*row, tasks@, reqs@));
    }
}

fn task_row_declares(rows: &Vec<CoverageRow>, t: &TaskDoc, a: &String) -> (r: bool)
    ensures
        r == row_declares(rows@, *t, a@),
{
    let mut k: usize = 0;
    while k < rows.len()
        invariant
            k <= rows@.len(),
            forall|j: int| 0 <= j < k ==> !((#[trigger] rows@[j]).task@ == t.id@ && rows@[j].acceptance@ == a@
                && str_views(t.requirement_refs@).contains(rows@[j].requirement@)),
        decreases rows@.len() - k,
    {
        if same(&rows[k].task, &t.id) && same(&rows[k].acceptance, a) && strings_contain(
            &t.requirement_refs,
            rows[k].requirement.as_str(),
        ) {
            return true;
        }
        k = k + 1;
    }
    false
}

fn check_declarations(issues: &mut Vec<String>, t: &TaskDoc, rows: &Vec<CoverageRow>)
    ensures
        str_views(final(issues)@) == str_views(old(issues)@) + declaration_issues(
            *t,
            str_views(t.acceptance_refs@),
            rows@,
        ),
{
    let ghost base = str_views(issues@);
    let ghost av = str_views(t.acceptance_refs@);
    let mut k: usize = 0;
    assert(av.take(0) =~= Seq::<Seq<char>>::empty());
    while k < t.acceptance_refs.len()
        invariant
            k <= av.len(),
            av == str_views(t.acceptance_refs@),
            str_views(issues@) == base + declaration_issues(*t, av.take(k as int), rows@),
        decreases av.len() - k,
    {
        let a = &t.acceptance_refs[k];
        proof {
            assert(av.take(k + 1).drop_last() =~= av.take(k as int));
            assert(av.take(k + 1).last() == a@);
        }
        let ghost before = str_views(issues@);
        if !task_row_declares(rows, t, a) {
            let mut m = String::from_str("覆盖矩阵缺少 ");
            m.append(t.id.as_str());
            m.append(" / ");
            m.append(a.as_str());
            m.append(" 的声明");
            issues.push(m);
        }
        proof {
            assert(str_views(issues@) =~= before + issue_if(
                !row_declares(rows@, *t, a@),
                "覆盖矩阵缺少 "@ + t.id@ + " / "@ + a@ + " 的声明"@,
            ));
        }
        k = k + 1;
    }
    assert(av.take(av.len() as int) =~= av);
}


/// Checks the tasks of a change that has tasks: fields, references,
/// dependencies, must-requirement coverage and the coverage matrix.
#[verifier::rlimit(80)]
pub fn validate_tasks(structure: &mut ChangeStructure)
    ensures
        final(structure).requirements == old(structure).requirements,
        final(structure).tasks == old(structure).tasks,
        final(structure).coverage == old(structure).coverage,
        final(structure).has_tasks == old(structure).has_tasks,
        final(structure).evidence_ids == old(structure).evidence_ids,
        str_views(final(structure).issues@) == str_views(old(structure).issues@) + if old(
            structure,
        ).has_tasks {
            task_check_issues(old(structure).requirements@, old(structure).tasks@, old(structure).coverage@)
        } else {
            seq![]
        },
{
    if !structure.has_tasks {
        assert(str_views(structure.issues@) =~= str_views(old(structure).issues@) + Seq::<Seq<char>>::empty());
        return;
    }
    let ghost base = str_views(structure.issues@);
    let ghost reqs = structure.requirements@;
    let ghost tasks = structure.tasks@;
    let ghost rows = structure.coverage@;
    let (req_ids, _) = crate::sdd_check::requirement_id_lists(&structure.requirements);
    let (ids, deps) = crate::sdd_check::task_id_lists(&structure.tasks);
    let mut i: usize = 0;
    assert(tasks.take(0) =~= Seq::<TaskDoc>::empty());
    while i < structure.tasks.len()
        invariant
            structure.requirements == old(structure).requirements,
            structure.tasks == old(structure).tasks,
            structure.coverage == old(structure).coverage,
            structure.has_tasks == old(structure).has_tasks,
            structure.evidence_ids == old(structure).evidence_ids,
            i <= tasks.len(),
            reqs == structure.requirements@,
            tasks == structure.tasks@,
            views(req_ids@) == requirement_ids(reqs),
            views(ids@) == task_ids(tasks),
            str_views(structure.issues@) == base + tasks_issues(tasks.take(i as int), reqs, tasks),
        decreases tasks.len() - i,
    {
        let ghost before = str_views(structure.issues@);
        let t = &structure.tasks[i];
        check_task_values(&mut structure.issues, t);
        check_task_notes(&mut structure.issues, t);
        check_requirement_refs(&mut structure.issues, t, &structure.requirements, &req_ids);
        check_acceptance_refs(&mut structure.issues, t, &structure.requirements);
        crate::sdd_check::check_dependencies(
            &mut structure.issues,
            &t.id,
            &t.dependencies,
            &ids,
            "SDD_TASK_SELF_DEPENDENCY: ",
            "SDD_UNKNOWN_TASK_REFERENCE: ",
        );
        proof {
            assert(tasks.take(i + 1).drop_last() =~= tasks.take(i as int));
            assert(tasks.take(i + 1).last() == tasks[i as int]);
            assert(str_views(structure.issues@) =~= before + task_issues(tasks[i as int], reqs, tasks));
        }
        i = i + 1;
    }
    assert(tasks.take(tasks.len() as int) =~= tasks);
    let ghost after_tasks = str_views(structure.issues@);
    let cyclic = crate::sdd_check::has_dependency_cycle(&ids, &deps);
    if cyclic {
        structure.issues.push(String::from_str("SDD_TASK_DEPENDENCY_CYCLE"));
    }
    let ghost after_cycle = str_views(structure.issues@);
    assert(after_cycle =~= after_tasks + issue_if(has_cycle(task_ids(tasks), task_deps(tasks)), "SDD_TASK_DEPENDENCY_CYCLE"@));
    let mut r: usize = 0;
    assert(reqs.take(0) =~= Seq::<RequirementDoc>::empty());
    while r < structure.requirements.len()
        invariant
            structure.requirements == old(structure).requirements,
            structure.tasks == old(structure).tasks,
            structure.coverage == old(structure).coverage,
            structure.has_tasks == old(structure).has_tasks,
            structure.evidence_ids == old(structure).evidence_ids,
            r <= reqs.len(),
            reqs == structure.requirements@,
            tasks == structure.tasks@,
            rows == structure.coverage@,
            str_views(structure.issues@) == after_cycle + must_issues(reqs.take(r as int), tasks, rows),
        decreases reqs.len() - r,
    {
        let req = &structure.requirements[r];
        let ghost before = str_views(structure.issues@);
        let must = eq_ignore_case_str(chars_of(req.priority.as_str()).as_slice(), "must");
        if must {
            check_must_acceptances(&mut structure.issues, req, &structure.tasks, &structure.coverage);
        }
        proof {
            assert(reqs.take(r + 1).drop_last() =~= reqs.take(r as int));
            assert(reqs.take(r + 1).last() == reqs[r as int]);
            if !must {
                assert(str_views(structure.issues@) =~= before + Seq::<Seq<char>>::empty());
            }
        }
        r = r + 1;
    }
    assert(reqs.take(reqs.len() as int) =~= reqs);
    let ghost after_must = str_views(structure.issues@);
    let mut k: usize = 0;
    assert(rows.take(0) =~= Seq::<CoverageRow>::empty());
    while k < structure.coverage.len()
        invariant
            structure.requirements == old(structure).requirements,
            structure.tasks == old(structure).tasks,
            structure.coverage == old(structure).coverage,
            structure.has_tasks == old(structure).has_tasks,
            structure.evidence_ids == old(structure).evidence_ids,
            k <= rows.len(),
            reqs == structure.requirements@,
            tasks == structure.tasks@,
            rows == structure.coverage@,
            views(ids@) == task_ids(tasks),
            str_views(structure.issues@) == after_must + rows_issues(rows.take(k as int), tasks, reqs),
        decreases rows.len() - k,
    {
        check_row(&mut structure.issues, &structure.coverage[k], &structure.tasks, &structure.requirements, &ids);
        proof {
            assert(rows.take(k + 1).drop_last() =~= rows.take(k as int));
            assert(rows.take(k + 1).last() == rows[k as int]);
        }
        k = k + 1;
    }
    assert(rows.take(rows.len() as int) =~= rows);
    let ghost after_rows = str_views(structure.issues@);
    let mut t: usize = 0;
    while t < structure.tasks.len()
        invariant
            structure.requirements == old(structure).requirements,
            structure.tasks == old(structure).tasks,
            structure.coverage == old(structure).coverage,
            structure.has_tasks == old(structure).has_tasks,
            structure.evidence_ids == old(structure).evidence_ids,
            t <= tasks.len(),
            tasks == structure.tasks@,
            rows == structure.coverage@,
            str_views(structure.issues@) == after_rows + all_declaration_issues(tasks.take(t as int), rows),
        decreases tasks.len() - t,
    {
        check_declarations(&mut structure.issues, &structure.tasks[t], &structure.coverage);
        proof {
            assert(tasks.take(t + 1).drop_last() =~= tasks.take(t as int));
            assert(tasks.take(t + 1).last() == tasks[t as int]);
        }
        t = t + 1;
    }
    proof {
        assert(tasks.take(tasks.len() as int) =~= tasks);
        assert(str_views(structure.issues@) =~= base + task_check_issues(reqs, tasks, rows));
    }
}

} // verus!
