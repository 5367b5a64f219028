//! Reading the Markdown of an SDD change into its structure and issues.
//!
//! The caller lists the change's files: `spec/index.md`, the Markdown files
//! of `spec/requirements/` and of `tasks/`, each directory's files in name
//! order, and `tasks/index.md`.

use vstd::prelude::*;
use crate::sdd_check::{
    issue_if, requirement_dependency_issues, structure_id_issues, validate_requirement_dependencies,
    validate_structure_ids, evidence_in_texts, ChangeStructure,
};
use crate::sdd_parse::{
    coverage_rows, declares_no_tasks, first_id_in, has_tasks_false, is_requirement_of, is_task_of,
    lists_set, parse_coverage, parse_requirement, parse_task, row_views, RequirementDoc, TaskDoc,
};
use crate::sdd_tasks::{task_check_issues, validate_tasks};
use crate::text::{contains_seq, has_prefix, is_blank, lines, str_views};

verus! {

/// A Markdown file of a change directory.
pub struct MarkdownFile {
    /// The path as shown in issues.
    pub display: String,
    /// The file name.
    pub name: String,
    /// The file name without its extension.
    pub stem: Option<String>,
    pub text: String,
}

/// The files of a change: `None` where a file or directory is missing.
pub struct SpecFiles {
    pub index: Option<String>,
    pub requirements: Option<Vec<MarkdownFile>>,
    pub tasks_index: Option<String>,
    pub tasks: Option<Vec<MarkdownFile>>,
}

pub open spec fn stem_of(f: MarkdownFile) -> Option<Seq<char>> {
    match f.stem {
        Some(s) => Some(s@),
        None => None,
    }
}

/// A requirement file names no requirement: no `REQ-*` heading and no stem.
pub open spec fn lacks_requirement_id(f: MarkdownFile) -> bool {
    first_id_in(lines(f.text@), "REQ-"@) is None && match f.stem {
        Some(s) => s@.len() == 0,
        None => true,
    }
}

/// Issues of the requirement files `fs`.
pub open spec fn requirement_file_issues(fs: Seq<MarkdownFile>) -> Seq<Seq<char>>
    decreases fs.len(),
{
    if fs.len() == 0 {
        seq![]
    } else {
        let f = fs.last();
        requirement_file_issues(fs.drop_last()) + issue_if(is_blank(f.text@), f.display@ + " 为空"@)
            + issue_if(lacks_requirement_id(f), f.display@ + " 缺少 REQ-* 标识"@) + issue_if(
            !contains_seq(f.text@, "## 验收条件"@),
            f.display@ + " 缺少验收条件"@,
        )
    }
}

/// A file of `tasks/` that is read as a task: not the index, and naming a
/// `TASK-*` identifier in a heading.
pub open spec fn is_task_file(f: MarkdownFile) -> bool {
    f.name@ != "index.md"@ && first_id_in(lines(f.text@), "TASK-"@) is Some
}

pub open spec fn task_files(fs: Seq<MarkdownFile>) -> Seq<MarkdownFile> {
    fs.filter(|f: MarkdownFile| is_task_file(f))
}

/// Issues of the task files `fs` (blank task documents).
pub open spec fn task_file_issues(fs: Seq<MarkdownFile>) -> Seq<Seq<char>>
    decreases fs.len(),
{
    if fs.len() == 0 {
        seq![]
    } else {
        let f = fs.last();
        task_file_issues(fs.drop_last()) + issue_if(is_task_file(f) && is_blank(f.text@), f.display@ + " 为空"@)
    }
}

/// Whether the change has tasks: yes unless `tasks/index.md` declares
/// `Has tasks: false`.
pub open spec fn has_tasks_of(files: SpecFiles) -> bool {
    match files.tasks_index {
        Some(t) => !declares_no_tasks(t@),
        None => true,
    }
}

pub open spec fn stray_task_file(fs: Seq<MarkdownFile>) -> bool {
    exists|i: int|
        0 <= i < fs.len() && ((#[trigger] fs[i]).stem matches Some(s) && has_prefix(s@, "TASK-"@))
}

/// The issues about the files of a change, before its contents are checked.
pub open spec fn file_issues(files: SpecFiles) -> Seq<Seq<char>> {
    let index_issues = match files.index {
        Some(t) => issue_if(is_blank(t@), "spec/index.md 为空"@),
        None => seq!["spec/index.md 缺失"@],
    };
    let req_issues = match files.requirements {
        Some(fs) => requirement_file_issues(fs@),
        None => seq!["spec/requirements 目录缺失"@],
    };
    let req_count = match files.requirements {
        Some(fs) => fs@.len(),
        None => 0,
    };
    let tasks_index_issues = match files.tasks_index {
        Some(t) => issue_if(
            declares_no_tasks(t@) && (files.tasks matches Some(fs) && stray_task_file(fs@)),
            "tasks/index.md 声明 Has tasks: false，但仍存在 TASK-*.md"@,
        ),
        None => seq!["tasks/index.md 缺失"@],
    };
    let task_issues = if has_tasks_of(files) {
        match files.tasks {
            Some(fs) => task_file_issues(fs@) + issue_if(
                task_files(fs@).len() == 0,
                "至少需要一个 tasks/TASK-*.md，或在 tasks/index.md 声明 Has tasks: false"@,
            ),
            None => seq!["tasks/ 目录缺失"@],
        }
    } else {
        seq![]
    };
    index_issues + req_issues + issue_if(req_count == 0, "至少需要一个 requirements/*.md"@)
        + tasks_index_issues + task_issues
}

/// The documents whose evidence lines are read, in order.
pub open spec fn evidence_texts(files: SpecFiles) -> Seq<Seq<char>> {
    let index = match files.index {
        Some(t) => seq![t@],
        None => seq![],
    };
    let reqs = match files.requirements {
        Some(fs) => Seq::new(fs@.len(), |i: int| fs@[i].text@),
        None => seq![],
    };
    let tasks_index = match files.tasks_index {
        Some(t) => seq![t@],
        None => seq![],
    };
    let tasks = if has_tasks_of(files) {
        match files.tasks {
            Some(fs) => Seq::new(task_files(fs@).len(), |i: int| task_files(fs@)[i].text@),
            None => seq![],
        }
    } else {
        seq![]
    };
    index + reqs + tasks_index + tasks
}

/// `s` is the structure of the change whose files are `files`.
pub open spec fn is_structure_of(s: ChangeStructure, files: SpecFiles) -> bool {
    let req_files = match files.requirements {
        Some(fs) => fs@,
        None => seq![],
    };
    let tfiles = if has_tasks_of(files) {
        match files.tasks {
            Some(fs) => task_files(fs@),
            None => seq![],
        }
    } else {
        seq![]
    };
    &&& s.requirements@.len() == req_files.len()
    &&& forall|i: int|
        0 <= i < req_files.len() ==> is_requirement_of(
            #[trigger] s.requirements@[i],
            stem_of(req_files[i]),
            req_files[i].text@,
        )
    &&& s.tasks@.len() == tfiles.len()
    &&& forall|i: int| 0 <= i < tfiles.len() ==> is_task_of(#[trigger] s.tasks@[i], tfiles[i].text@)
    &&& s.has_tasks == has_tasks_of(files)
    &&& row_views(s.coverage@) == match files.tasks_index {
        Some(t) => coverage_rows(lines(t@)),
        None => seq![],
    }
    &&& lists_set(str_views(s.evidence_ids@), evidence_in_texts(evidence_texts(files)).to_set())
    &&& str_views(s.issues@) == file_issues(files) + structure_id_issues(
        s.requirements@,
        s.tasks@,
        evidence_texts(files),
        Set::empty(),
    ) + requirement_dependency_issues(s.requirements@) + if s.has_tasks {
        task_check_issues(s.requirements@, s.tasks@, s.coverage@)
    } else {
        seq![]
    }
}


fn blank_text(s: &String) -> (r: bool)
    ensures
        r == is_blank(s@),
{
    let v = crate::text::chars_of(s.as_str());
    crate::text::blank(v.as_slice())
}

fn push_issue(issues: &mut Vec<String>, a: &str, b: &str)
    ensures
        str_views(final(issues)@) == str_views(old(issues)@).push(a@ + b@),
{
    let mut m = String::from_str(a);
    m.append(b);
    issues.push(m);
    assert(str_views(issues@) =~= str_views(old(issues)@).push(a@ + b@));
}

fn push_text(texts: &mut Vec<String>, t: &String)
    ensures
        str_views(final(texts)@) == str_views(old(texts)@).push(t@),
{
    texts.push(String::from_str(t.as_str()));
    assert(str_views(texts@) =~= str_views(old(texts)@).push(t@));
}

#[verifier::rlimit(60)]
fn read_requirement_files(
    fs: &Vec<MarkdownFile>,
    issues: &mut Vec<String>,
    reqs: &mut Vec<RequirementDoc>,
    texts: &mut Vec<String>,
)
    requires
        old(reqs)@.len() == 0,
    ensures
        str_views(final(issues)@) == str_views(old(issues)@) + requirement_file_issues(fs@),
        final(reqs)@.len() == fs@.len(),
        forall|i: int| 0 <= i < fs@.len() ==> is_requirement_of(#[trigger] final(reqs)@[i], stem_of(fs@[i]), fs@[i].text@),
        str_views(final(texts)@) == str_views(old(texts)@) + Seq::new(fs@.len(), |i: int| fs@[i].text@),
{
    let ghost base = str_views(issues@);
    let ghost tbase = str_views(texts@);
    let mut i: usize = 0;
    assert(fs@.take(0) =~= Seq::<MarkdownFile>::empty());
    while i < fs.len()
        invariant
            i <= fs@.len(),
            reqs@.len() == i,
            forall|j: int| 0 <= j < i ==> is_requirement_of(#[trigger] reqs@[j], stem_of(fs@[j]), fs@[j].text@),
            str_views(issues@) == base + requirement_file_issues(fs@.take(i as int)),
            str_views(texts@) == tbase + Seq::new(i as nat, |j: int| fs@[j].text@),
        decreases fs@.len() - i,
    {
        let f = &fs[i];
        let ghost before = str_views(issues@);
        if blank_text(&f.text) {
            push_issue(issues, f.display.as_str(), " 为空");
        }
        let ghost s1 = str_views(issues@);
        assert(s1 =~= before + issue_if(is_blank(f.text@), f.display@ + " 为空"@));
        let stem = match &f.stem {
            Some(s) => Some(s.as_str()),
            None => None,
        };
        let req = parse_requirement(stem, f.text.as_str());
        proof {
            assert(match stem {
                Some(s) => Some(s@),
                None => None,
            } == stem_of(*f));
        }
        if req.id.unicode_len() == 0 {
            push_issue(issues, f.display.as_str(), " 缺少 REQ-* 标识");
        }
        let ghost s2 = str_views(issues@);
        assert(s2 =~= s1 + issue_if(lacks_requirement_id(*f), f.display@ + " 缺少 REQ-* 标识"@));
        let tv = crate::text::chars_of(f.text.as_str());
        if !crate::text::contains_str(tv.as_slice(), "## 验收条件") {
            push_issue(issues, f.display.as_str(), " 缺少验收条件");
        }
        proof {
            assert(str_views(issues@) =~= s2 + issue_if(
                !contains_seq(f.text@, "## 验收条件"@),
                f.display@ + " 缺少验收条件"@,
            ));
            assert(fs@.take(i + 1).drop_last() =~= fs@.take(i as int));
            assert(fs@.take(i + 1).last() == fs@[i as int]);
        }
        reqs.push(req);
        push_text(texts, &f.text);
        proof {
            assert(Seq::new((i + 1) as nat, |j: int| fs@[j].text@) =~= Seq::new(i as nat, |j: int| fs@[j].text@).push(fs@[i as int].text@));
        }
        i = i + 1;
    }
    assert(fs@.take(fs@.len() as int) =~= fs@);
}

proof fn lemma_filter_push(fs: Seq<MarkdownFile>, f: MarkdownFile)
    ensures
        task_files(fs.push(f)) == if is_task_file(f) {
            task_files(fs).push(f)
        } else {
            task_files(fs)
        },
{
    let p = |x: MarkdownFile| is_task_file(x);
    assert(fs.push(f).drop_last() =~= fs);
    reveal_with_fuel(Seq::filter, 1);
}

fn is_index_name(name: &String) -> (r: bool)
    ensures
        r == (name@ == "index.md"@),
{
    let v = crate::text::chars_of(name.as_str());
    crate::text::chars_equal_str(v.as_slice(), "index.md")
}

fn read_task_files(
    fs: &Vec<MarkdownFile>,
    issues: &mut Vec<String>,
    tasks: &mut Vec<TaskDoc>,
    texts: &mut Vec<String>,
)
    requires
        old(tasks)@.len() == 0,
    ensures
        str_views(final(issues)@) == str_views(old(issues)@) + task_file_issues(fs@),
        final(tasks)@.len() == task_files(fs@).len(),
        forall|i: int| 0 <= i < task_files(fs@).len() ==> is_task_of(#[trigger] final(tasks)@[i], task_files(fs@)[i].text@),
        str_views(final(texts)@) == str_views(old(texts)@) + Seq::new(task_files(fs@).len(), |i: int| task_files(fs@)[i].text@),
{
    let ghost base = str_views(issues@);
    let ghost tbase = str_views(texts@);
    let mut i: usize = 0;
    assert(fs@.take(0) =~= Seq::<MarkdownFile>::empty());
    assert(task_files(fs@.take(0)) =~= Seq::<MarkdownFile>::empty()) by {
        reveal_with_fuel(Seq::filter, 1);
    }
    while i < fs.len()
        invariant
            i <= fs@.len(),
            tasks@.len() == task_files(fs@.take(i as int)).len(),
            forall|j: int| 0 <= j < tasks@.len() ==> is_task_of(#[trigger] tasks@[j], task_files(fs@.take(i as int))[j].text@),
            str_views(issues@) == base + task_file_issues(fs@.take(i as int)),
            str_views(texts@) == tbase + Seq::new(task_files(fs@.take(i as int)).len(), |j: int| task_files(fs@.take(i as int))[j].text@),
        decreases fs@.len() - i,
    {
        let f = &fs[i];
        let ghost prev = task_files(fs@.take(i as int));
        proof {
            assert(fs@.take(i + 1) =~= fs@.take(i as int).push(fs@[i as int]));
            lemma_filter_push(fs@.take(i as int), fs@[i as int]);
            assert(fs@.take(i + 1).drop_last() =~= fs@.take(i as int));
            assert(fs@.take(i + 1).last() == fs@[i as int]);
        }
        if !is_index_name(&f.name) {
            let task = parse_task(f.text.as_str());
            if task.id.unicode_len() > 0 {
                proof {
                    assert(is_task_file(*f));
                }
                let ghost before = str_views(issues@);
                if blank_text(&f.text) {
                    push_issue(issues, f.display.as_str(), " 为空");
                }
                assert(str_views(issues@) =~= before + issue_if(is_task_file(*f) && is_blank(f.text@), f.display@ + " 为空"@));
                tasks.push(task);
                push_text(texts, &f.text);
                proof {
                    let next = task_files(fs@.take(i + 1));
                    assert(next == prev.push(*f));
                    assert(Seq::new(next.len(), |j: int| next[j].text@) =~= Seq::new(prev.len(), |j: int| prev[j].text@).push(f.text@));
                    assert forall|j: int| 0 <= j < tasks@.len() implies is_task_of(#[trigger] tasks@[j], next[j].text@) by {
                        if j < prev.len() {
                            assert(next[j] == prev[j]);
                        }
                    }
                }
            } else {
                proof {
                    assert(!is_task_file(*f));
                    assert(str_views(issues@) =~= str_views(issues@) + Seq::<Seq<char>>::empty());
                }
            }
        } else {
            proof {
                assert(!is_task_file(*f));
                assert(str_views(issues@) =~= str_views(issues@) + Seq::<Seq<char>>::empty());
            }
        }
        i = i + 1;
    }
    assert(fs@.take(fs@.len() as int) =~= fs@);
}


fn has_stray_task_file(fs: &Vec<MarkdownFile>) -> (r: bool)
    ensures
        r == stray_task_file(fs@),
{
    let mut i: usize = 0;
    while i < fs.len()
        invariant
            i <= fs@.len(),
            forall|j: int| 0 <= j < i ==> !((#[trigger] fs@[j]).stem matches Some(s) && has_prefix(s@, "TASK-"@)),
        decreases fs@.len() - i,
    {
        match &fs[i].stem {
            Some(s) => {
                let v = crate::text::chars_of(s.as_str());
                let p = crate::text::chars_of("TASK-");
                if crate::text::starts_with(v.as_slice(), p.as_slice()) {
                    return true;
                }
            },
            None => {},
        }
        i = i + 1;
    }
    false
}

/// The declared contents of a change and the issues about its files, before
/// the content checks.
#[verifier::rlimit(60)]
fn gather(files: &SpecFiles) -> (r: (ChangeStructure, Vec<String>))
    ensures
        is_gathered(r.0, *files),
        str_views(r.0.evidence_ids@).len() == 0,
        str_views(r.1@) == evidence_texts(*files),
{
    let mut issues: Vec<String> = Vec::new();
    let mut texts: Vec<String> = Vec::new();
    let mut requirements: Vec<RequirementDoc> = Vec::new();
    let mut tasks: Vec<TaskDoc> = Vec::new();
    match &files.index {
        Some(t) => {
            if blank_text(t) {
                issues.push(String::from_str("spec/index.md 为空"));
            }
            push_text(&mut texts, t);
        },
        None => {
            issues.push(String::from_str("spec/index.md 缺失"));
        },
    }
    let ghost a1 = str_views(issues@);
    let ghost t1 = str_views(texts@);
    assert(a1 =~= match files.index {
        Some(t) => issue_if(is_blank(t@), "spec/index.md 为空"@),
        None => seq!["spec/index.md 缺失"@],
    });
    match &files.requirements {
        Some(fs) => {
            read_requirement_files(fs, &mut issues, &mut requirements, &mut texts);
        },
        None => {
            issues.push(String::from_str("spec/requirements 目录缺失"));
        },
    }
    let ghost a2 = str_views(issues@);
    assert(a2 =~= a1 + match files.requirements {
        Some(fs) => requirement_file_issues(fs@),
        None => seq!["spec/requirements 目录缺失"@],
    });
    if requirements.len() == 0 {
        issues.push(String::from_str("至少需要一个 requirements/*.md"));
    }
    let ghost a3 = str_views(issues@);
    let ghost t2 = str_views(texts@);
    let ghost req_count = match &files.requirements {
        Some(fs) => fs@.len(),
        None => 0,
    };
    assert(a3 =~= a2 + issue_if(req_count == 0, "至少需要一个 requirements/*.md"@));
    let mut has_tasks = true;
    let mut coverage: Vec<crate::sdd_parse::CoverageRow> = Vec::new();
    match &files.tasks_index {
        Some(t) => {
            has_tasks = !has_tasks_false(t.as_str());
            coverage = parse_coverage(t.as_str());
            push_text(&mut texts, t);
            if !has_tasks {
                match &files.tasks {
                    Some(fs) => {
                        if has_stray_task_file(fs) {
                            issues.push(String::from_str("tasks/index.md 声明 Has tasks: false，但仍存在 TASK-*.md"));
                        }
                    },
                    None => {},
                }
            }
        },
        None => {
            issues.push(String::from_str("tasks/index.md 缺失"));
        },
    }
    let ghost a4 = str_views(issues@);
    let ghost t3 = str_views(texts@);
    assert(has_tasks == has_tasks_of(*files));
    assert(a4 =~= a3 + match files.tasks_index {
        Some(t) => issue_if(
            declares_no_tasks(t@) && (files.tasks matches Some(fs) && stray_task_file(fs@)),
            "tasks/index.md 声明 Has tasks: false，但仍存在 TASK-*.md"@,
        ),
        None => seq!["tasks/index.md 缺失"@],
    });
    if has_tasks {
        match &files.tasks {
            Some(fs) => {
                read_task_files(fs, &mut issues, &mut tasks, &mut texts);
                let ghost mid = str_views(issues@);
                if tasks.len() == 0 {
                    issues.push(String::from_str("至少需要一个 tasks/TASK-*.md，或在 tasks/index.md 声明 Has tasks: false"));
                }
                assert(str_views(issues@) =~= mid + issue_if(
                    task_files(fs@).len() == 0,
                    "至少需要一个 tasks/TASK-*.md，或在 tasks/index.md 声明 Has tasks: false"@,
                ));
            },
            None => {
                issues.push(String::from_str("tasks/ 目录缺失"));
                assert(str_views(issues@) =~= a4 + seq!["tasks/ 目录缺失"@]);
            },
        }
    }
    proof {
        assert(row_views(coverage@) == match files.tasks_index {
            Some(t) => coverage_rows(lines(t@)),
            None => Seq::<(Seq<char>, Seq<char>, Seq<char>)>::empty(),
        });
        assert(str_views(texts@) =~= evidence_texts(*files));
        assert(str_views(issues@) =~= a4 + if has_tasks_of(*files) {
            match files.tasks {
                Some(fs) => task_file_issues(fs@) + issue_if(
                    task_files(fs@).len() == 0,
                    "至少需要一个 tasks/TASK-*.md，或在 tasks/index.md 声明 Has tasks: false"@,
                ),
                None => seq!["tasks/ 目录缺失"@],
            }
        } else {
            seq![]
        });
        assert(str_views(issues@) =~= file_issues(*files));
    }
    let mut structure = ChangeStructure {
        requirements,
        tasks,
        coverage,
        has_tasks,
        evidence_ids: Vec::new(),
        issues,
    };
    assert(str_views(structure.evidence_ids@) =~= Seq::<Seq<char>>::empty());
    (structure, texts)
}

/// The structure of `files` before the content checks.
pub open spec fn is_gathered(s: ChangeStructure, files: SpecFiles) -> bool {
    let req_files = match files.requirements {
        Some(fs) => fs@,
        None => seq![],
    };
    let tfiles = if has_tasks_of(files) {
        match files.tasks {
            Some(fs) => task_files(fs@),
            None => seq![],
        }
    } else {
        seq![]
    };
    &&& s.requirements@.len() == req_files.len()
    &&& forall|i: int|
        0 <= i < req_files.len() ==> is_requirement_of(
            #[trigger] s.requirements@[i],
            stem_of(req_files[i]),
            req_files[i].text@,
        )
    &&& s.tasks@.len() == tfiles.len()
    &&& forall|i: int| 0 <= i < tfiles.len() ==> is_task_of(#[trigger] s.tasks@[i], tfiles[i].text@)
    &&& s.has_tasks == has_tasks_of(files)
    &&& row_views(s.coverage@) == match files.tasks_index {
        Some(t) => coverage_rows(lines(t@)),
        None => seq![],
    }
    &&& str_views(s.issues@) == file_issues(files)
}

/// Reads a change from its files into its structure: requirements, tasks,
/// coverage matrix and evidence identifiers, with every issue found by the
/// file, identifier, dependency and task checks.
pub fn inspect_spec_structure(files: &SpecFiles) -> (r: ChangeStructure)
    ensures
        is_structure_of(r, *files),
{
    let (mut structure, texts) = gather(files);
    assert(str_views(structure.evidence_ids@).to_set() =~= Set::<Seq<char>>::empty());
    validate_structure_ids(&mut structure, &texts);
    validate_requirement_dependencies(&mut structure);
    validate_tasks(&mut structure);
    proof {
        assert(Set::<Seq<char>>::empty().union(evidence_in_texts(evidence_texts(*files)).to_set()) =~= evidence_in_texts(evidence_texts(*files)).to_set());
    }
    structure
}

} // verus!
