//! The `verify.md` report of an SDD change.

use vstd::prelude::*;
use crate::fmt::{decimal, push_decimal};
use crate::sdd_verify::{CheckInput, TaskVerificationInput, VerificationInput};
use crate::text::{join, push_joined_strings, str_views};

verus! {

/// `无` for an empty list, else the items joined with `；`.
pub open spec fn join_or_none_text(values: Seq<Seq<char>>) -> Seq<char> {
    if values.len() == 0 {
        "无"@
    } else {
        join(values, "；"@)
    }
}

/// Joins values with `；`, or `无` when there are none.
pub fn join_or_none(values: &Vec<String>) -> (r: String)
    ensures
        r@ == join_or_none_text(str_views(values@)),
{
    if values.len() == 0 {
        String::from_str("无")
    } else {
        let mut r = String::new();
        push_joined_strings(&mut r, values, "；");
        assert(r@ =~= join_or_none_text(str_views(values@)));
        r
    }
}

/// The structural issues section: nothing when there are no issues.
pub open spec fn issues_text(issues: Seq<Seq<char>>) -> Seq<char> {
    if issues.len() == 0 {
        seq![]
    } else {
        "\n## 结构问题\n\n"@ + issue_lines(issues)
    }
}

pub open spec fn issue_lines(issues: Seq<Seq<char>>) -> Seq<char>
    decreases issues.len(),
{
    if issues.len() == 0 {
        seq![]
    } else {
        issue_lines(issues.drop_last()) + "- "@ + issues.last() + "\n"@
    }
}

fn append_structural_issues(body: &mut String, issues: &Vec<String>)
    ensures
        final(body)@ == old(body)@ + issues_text(str_views(issues@)),
{
    if issues.len() == 0 {
        assert(body@ =~= old(body)@ + issues_text(str_views(issues@)));
        return;
    }
    body.append("\n## 结构问题\n\n");
    let ghost start = body@;
    let ghost iv = str_views(issues@);
    let mut i: usize = 0;
    assert(iv.take(0) =~= Seq::<Seq<char>>::empty());
    while i < issues.len()
        invariant
            i <= iv.len(),
            iv == str_views(issues@),
            body@ == start + issue_lines(iv.take(i as int)),
        decreases iv.len() - i,
    {
        body.append("- ");
        body.append(issues[i].as_str());
        body.append("\n");
        proof {
            assert(iv.take(i + 1).drop_last() =~= iv.take(i as int));
            assert(iv.take(i + 1).last() == issues@[i as int]@);
            assert(body@ =~= start + issue_lines(iv.take(i + 1)));
        }
        i = i + 1;
    }
    assert(iv.take(iv.len() as int) =~= iv);
    assert(body@ =~= old(body)@ + issues_text(iv));
}

pub open spec fn pass_word(failed: bool) -> Seq<char> {
    if failed {
        "failed"@
    } else {
        "passed"@
    }
}

pub open spec fn snapshot_lines(ts: Seq<TaskVerificationInput>) -> Seq<char>
    decreases ts.len(),
{
    if ts.len() == 0 {
        seq![]
    } else {
        let t = ts.last();
        snapshot_lines(ts.drop_last()) + "- "@ + t.id@ + ": "@ + t.status@ + "；Evidence refs: "@
            + join_or_none_text(str_views(t.evidence_refs@)) + "\n"@
    }
}

/// One check of the evidence report.
pub open spec fn check_text(c: CheckInput) -> Seq<char> {
    "### "@ + match c.id {
        Some(id) => id@ + "："@,
        None => seq![],
    } + c.name@ + "\n\n- Status: "@ + c.status@ + "\n- Command: "@ + match c.command {
        Some(cmd) => cmd@,
        None => "未提供"@,
    } + "\n- Output: "@ + c.output@ + "\n- Evidence refs: "@ + join_or_none_text(str_views(c.evidence_refs@))
        + "\n- Requirement refs: "@ + join_or_none_text(str_views(c.requirement_refs@))
        + "\n- Acceptance refs: "@ + join_or_none_text(str_views(c.acceptance_refs@)) + "\n- Task refs: "@
        + join_or_none_text(str_views(c.task_refs@)) + "\n\n"@
}

pub open spec fn checks_text(cs: Seq<CheckInput>) -> Seq<char>
    decreases cs.len(),
{
    if cs.len() == 0 {
        seq![]
    } else {
        checks_text(cs.drop_last()) + check_text(cs.last())
    }
}

/// The evidence-mode report.
pub open spec fn evidence_report(
    checked_at: Seq<char>,
    v: VerificationInput,
    structural_failed: bool,
    issues: Seq<Seq<char>>,
) -> Seq<char> {
    "# 验证报告\n\n- Checked at: "@ + checked_at + "\n- Mode: evidence\n- Result: "@ + v.result@
        + "\n- Structural checks: "@ + pass_word(structural_failed) + "\n\n"@ + issues_text(issues)
        + "\n## Task snapshots\n\n"@ + (if v.tasks@.len() == 0 {
        "- 无\n"@
    } else {
        snapshot_lines(v.tasks@)
    }) + "\n## Checks\n\n"@ + checks_text(v.checks@)
}

fn append_check(body: &mut String, c: &CheckInput)
    ensures
        final(body)@ == old(body)@ + check_text(*c),
{
    body.append("### ");
    match &c.id {
        Some(id) => {
            body.append(id.as_str());
            body.append("：");
        },
        None => {},
    }
    body.append(c.name.as_str());
    body.append("\n\n- Status: ");
    body.append(c.status.as_str());
    body.append("\n- Command: ");
    match &c.command {
        Some(cmd) => body.append(cmd.as_str()),
        None => body.append("未提供"),
    }
    body.append("\n- Output: ");
    body.append(c.output.as_str());
    body.append("\n- Evidence refs: ");
    body.append(join_or_none(&c.evidence_refs).as_str());
    body.append("\n- Requirement refs: ");
    body.append(join_or_none(&c.requirement_refs).as_str());
    body.append("\n- Acceptance refs: ");
    body.append(join_or_none(&c.acceptance_refs).as_str());
    body.append("\n- Task refs: ");
    body.append(join_or_none(&c.task_refs).as_str());
    body.append("\n\n");
    assert(body@ =~= old(body)@ + check_text(*c));
}

/// The `verify.md` body of an evidence verification checked at
/// `checked_at`.
pub fn render_verification(
    checked_at: &str,
    verification: &VerificationInput,
    structural_failed: bool,
    structural_issues: &Vec<String>,
) -> (r: String)
    ensures
        r@ == evidence_report(checked_at@, *verification, structural_failed, str_views(structural_issues@)),
{
    let mut body = String::from_str("# 验证报告\n\n- Checked at: ");
    body.append(checked_at);
    body.append("\n- Mode: evidence\n- Result: ");
    body.append(verification.result.as_str());
    body.append("\n- Structural checks: ");
    if structural_failed {
        body.append("failed");
    } else {
        body.append("passed");
    }
    body.append("\n\n");
    let ghost head = body@;
    append_structural_issues(&mut body, structural_issues);
    body.append("\n## Task snapshots\n\n");
    let ghost before_tasks = body@;
    if verification.tasks.len() == 0 {
        body.append("- 无\n");
    } else {
        let mut i: usize = 0;
        let ghost ts = verification.tasks@;
        assert(ts.take(0) =~= Seq::<TaskVerificationInput>::empty());
        while i < verification.tasks.len()
            invariant
                i <= ts.len(),
                ts == verification.tasks@,
                body@ == before_tasks + snapshot_lines(ts.take(i as int)),
            decreases ts.len() - i,
        {
            let t = &verification.tasks[i];
            body.append("- ");
            body.append(t.id.as_str());
            body.append(": ");
            body.append(t.status.as_str());
            body.append("；Evidence refs: ");
            body.append(join_or_none(&t.evidence_refs).as_str());
            body.append("\n");
            proof {
                assert(ts.take(i + 1).drop_last() =~= ts.take(i as int));
                assert(ts.take(i + 1).last() == ts[i as int]);
                assert(body@ =~= before_tasks + snapshot_lines(ts.take(i + 1)));
            }
            i = i + 1;
        }
        assert(ts.take(ts.len() as int) =~= ts);
    }
    let ghost after_tasks = body@;
    body.append("\n## Checks\n\n");
    let ghost before_checks = body@;
    let ghost cs = verification.checks@;
    let mut k: usize = 0;
    assert(cs.take(0) =~= Seq::<CheckInput>::empty());
    while k < verification.checks.len()
        invariant
            k <= cs.len(),
            cs == verification.checks@,
            body@ == before_checks + checks_text(cs.take(k as int)),
        decreases cs.len() - k,
    {
        append_check(&mut body, &verification.checks[k]);
        proof {
            assert(cs.take(k + 1).drop_last() =~= cs.take(k as int));
            assert(cs.take(k + 1).last() == cs[k as int]);
        }
        k = k + 1;
    }
    assert(cs.take(cs.len() as int) =~= cs);
    assert(body@ =~= evidence_report(checked_at@, *verification, structural_failed, str_views(structural_issues@)));
    body
}

/// The structure-mode report.
pub open spec fn structure_report(
    checked_at: Seq<char>,
    result: Seq<char>,
    requirement_count: nat,
    task_count: nat,
    has_tasks: bool,
    structural_failed: bool,
    issues: Seq<Seq<char>>,
) -> Seq<char> {
    "# 验证报告\n\n- Checked at: "@ + checked_at + "\n- Mode: structure\n- Result: "@ + result
        + "\n- Structural checks: "@ + pass_word(structural_failed) + "\n- Checks: "@ + decimal(
        requirement_count,
    ) + " requirements and "@ + decimal(task_count) + " tasks inspected\n\n"@
        + "- spec/index.md: present\n"@ + "- requirements: "@ + decimal(requirement_count)
        + " Markdown file(s)\n"@ + "- tasks: "@ + (if has_tasks {
        decimal(task_count) + " Markdown file(s)"@
    } else {
        "Has tasks: false"@
    }) + "\n"@ + if issues.len() == 0 {
        "- result: all structural checks passed\n"@
    } else {
        issues_text(issues)
    }
}

/// The `verify.md` body of a structure-only verification checked at
/// `checked_at`.
pub fn render_structural_verification(
    checked_at: &str,
    result: &str,
    requirement_count: usize,
    task_count: usize,
    has_tasks: bool,
    structural_failed: bool,
    structural_issues: &Vec<String>,
) -> (r: String)
    ensures
        r@ == structure_report(
            checked_at@,
            result@,
            requirement_count as nat,
            task_count as nat,
            has_tasks,
            structural_failed,
            str_views(structural_issues@),
        ),
{
    let mut body = String::from_str("# 验证报告\n\n- Checked at: ");
    body.append(checked_at);
    body.append("\n- Mode: structure\n- Result: ");
    body.append(result);
    body.append("\n- Structural checks: ");
    if structural_failed {
        body.append("failed");
    } else {
        body.append("passed");
    }
    body.append("\n- Checks: ");
    push_decimal(&mut body, requirement_count as u64);
    body.append(" requirements and ");
    push_decimal(&mut body, task_count as u64);
    body.append(" tasks inspected\n\n");
    body.append("- spec/index.md: present\n");
    body.append("- requirements: ");
    push_decimal(&mut body, requirement_count as u64);
    body.append(" Markdown file(s)\n");
    body.append("- tasks: ");
    if has_tasks {
        push_decimal(&mut body, task_count as u64);
        body.append(" Markdown file(s)");
    } else {
        body.append("Has tasks: false");
    }
    body.append("\n");
    let ghost before = body@;
    if structural_issues.len() == 0 {
        body.append("- result: all structural checks passed\n");
    } else {
        append_structural_issues(&mut body, structural_issues);
    }
    assert(body@ =~= structure_report(
        checked_at@,
        result@,
        requirement_count as nat,
        task_count as nat,
        has_tasks,
        structural_failed,
        str_views(structural_issues@),
    ));
    body
}

} // verus!
