//! `wiki init` — the seed of a knowledge-base wiki.
//!
//! Planning decides, for each seed target, whether it is created, kept or
//! overwritten; the seed documents are rendered here, byte-stable for a
//! given root and source URL. The filesystem reports what exists and does
//! the writing.
//!
//! Layout of the seed:
//!
//! - `<dir>/AGENTS.md` — global context: owner goals and non-negotiable rules.
//! - `<dir>/index.md`  — catalog and navigation aid.
//! - `<dir>/SDD.md`    — SDD workflow, artifact contract, and agent checklist.
//! - `<dir>/log.md`    — append-only chronology; entries begin with
//!   `## [YYYY-MM-DD]`, the same prefix `read` and `search` parse.
//! - `<dir>/sdd/`      — spec-driven changes and archives.
//! - `<dir>/notes/`    — verified, reusable source-of-truth knowledge.
//! - `<dir>/ideas/`    — original reasoning, preferences, decision rationale.
//! - `<dir>/projects/` — active work, plans, implementation, verification.

use vstd::prelude::*;
use crate::shared::{area_name, display_form, display_path, knowledge_area, AGENTS_FILENAME, AREA_COUNT, INDEX_FILENAME, LOG_FILENAME, SDD_FILENAME};
use crate::text::{is_blank, str_views};

verus! {

/// User choices for the knowledge-base seed.
pub struct KnowledgeOptions {
    /// Target directory. Created if absent. Relative paths resolve against
    /// the session working directory.
    pub dir: String,
    /// Optional source URL recorded in the seed. Stored verbatim; never
    /// fetched. When `None`, the seed documents omit the `Source:` line.
    pub url: Option<String>,
    /// Overwrite existing seed files instead of leaving them untouched.
    pub force: bool,
}

/// One file or directory the command will touch.
pub struct KnowledgeItem {
    /// Target path.
    pub path: String,
    /// Stable English verb shown in the preview/receipt.
    pub action: KnowledgeAction,
}

/// Stable action semantics for the preview and the receipt.
#[derive(Clone, Copy, PartialEq, Eq, Structural, Debug)]
pub enum KnowledgeAction {
    /// The target did not exist before; the command writes it now.
    Create,
    /// The target already exists; the command leaves it untouched.
    Keep,
    /// The target already exists and the user passed `--force`; the
    /// command replaces its contents.
    Overwrite,
}

pub open spec fn action_name(a: KnowledgeAction) -> Seq<char> {
    match a {
        KnowledgeAction::Create => "Create"@,
        KnowledgeAction::Keep => "Keep"@,
        KnowledgeAction::Overwrite => "Overwrite"@,
    }
}

pub open spec fn writes(a: KnowledgeAction) -> bool {
    a is Create || a is Overwrite
}

impl KnowledgeAction {
    /// The verb shown for the action.
    pub fn as_str(self) -> (r: &'static str)
        ensures
            r@ == action_name(self),
    {
        match self {
            KnowledgeAction::Create => "Create",
            KnowledgeAction::Keep => "Keep",
            KnowledgeAction::Overwrite => "Overwrite",
        }
    }

    /// Whether the action writes the target.
    pub fn is_written(self) -> (r: bool)
        ensures
            r == writes(self),
    {
        match self {
            KnowledgeAction::Create | KnowledgeAction::Overwrite => true,
            KnowledgeAction::Keep => false,
        }
    }
}

/// Immutable plan shared by the preview and the commit.
pub struct KnowledgePlan {
    items: Vec<KnowledgeItem>,
    options: KnowledgeOptions,
    resolved_dir: String,
}

impl KnowledgePlan {
    pub closed spec fn items_view(&self) -> Seq<KnowledgeItem> {
        self.items@
    }

    pub closed spec fn dir_view(&self) -> Seq<char> {
        self.resolved_dir@
    }

    pub closed spec fn url_view(&self) -> Option<Seq<char>> {
        match self.options.url {
            Some(u) => Some(u@),
            None => None,
        }
    }

    /// Every effective item in the order they will be processed.
    pub fn preview(&self) -> (r: &[KnowledgeItem])
        ensures
            r@ == self.items_view(),
    {
        self.items.as_slice()
    }

    /// Resolved target directory.
    pub fn resolved_dir(&self) -> (r: &str)
        ensures
            r@ == self.dir_view(),
    {
        self.resolved_dir.as_str()
    }

    /// Source URL recorded in the seed, if any.
    pub fn url(&self) -> (r: Option<&str>)
        ensures
            match r {
                Some(u) => self.url_view() == Some(u@),
                None => self.url_view() is None,
            },
    {
        match &self.options.url {
            Some(u) => Some(u.as_str()),
            None => None,
        }
    }

    /// True when no file would be written (every item is `Keep`).
    pub fn is_empty(&self) -> (r: bool)
        ensures
            r == forall|i: int| 0 <= i < self.items_view().len() ==> !writes(#[trigger] self.items_view()[i].action),
    {
        let mut i: usize = 0;
        while i < self.items.len()
            invariant
                i <= self.items@.len(),
                forall|j: int| 0 <= j < i ==> !writes(#[trigger] self.items@[j].action),
            decreases self.items@.len() - i,
        {
            if self.items[i].action.is_written() {
                return false;
            }
            i = i + 1;
        }
        true
    }
}

/// Outcome of a successful commit.
pub struct OperationReceipt {
    /// Number of files actually written (Create or Overwrite).
    pub changed_targets: usize,
    /// User-facing follow-up notes.
    pub notes: Vec<String>,
}

/// The seed files, in plan order.
pub open spec fn seed_file(i: int) -> Seq<char> {
    if i == 0 {
        AGENTS_FILENAME@
    } else if i == 1 {
        INDEX_FILENAME@
    } else if i == 2 {
        LOG_FILENAME@
    } else {
        SDD_FILENAME@
    }
}

/// A target below the resolved directory (`Path::join`): a `/` goes
/// between them unless `dir` is empty or already ends in one.
pub open spec fn child_path(dir: Seq<char>, name: Seq<char>) -> Seq<char> {
    if dir.len() == 0 || dir.last() == '/' {
        dir + name
    } else {
        dir + seq!['/'] + name
    }
}

/// The action for a seed file: created when absent, otherwise overwritten
/// with `--force` and kept without.
pub open spec fn file_action(exists: bool, force: bool) -> KnowledgeAction {
    if !exists {
        KnowledgeAction::Create
    } else if force {
        KnowledgeAction::Overwrite
    } else {
        KnowledgeAction::Keep
    }
}

/// The action for an area directory: created when absent, always kept once
/// present.
pub open spec fn directory_action(exists: bool) -> KnowledgeAction {
    if exists {
        KnowledgeAction::Keep
    } else {
        KnowledgeAction::Create
    }
}

/// Why the seed cannot be planned, if it cannot.
pub open spec fn plan_error(options: KnowledgeOptions, dir: Seq<char>, dir_exists: bool, dir_is_dir: bool) -> Option<Seq<char>> {
    if options.url matches Some(u) && is_blank(u@) {
        Some("--url must be a non-empty source URL."@)
    } else if dir_exists && !dir_is_dir {
        Some("The knowledge-base path "@ + display_form(dir) + " exists but is not a directory."@)
    } else {
        None
    }
}

fn child(dir: &str, name: &str) -> (r: String)
    ensures
        r@ == child_path(dir@, name@),
{
    let v = crate::text::chars_of(dir);
    let mut r = String::from_str(dir);
    if v.len() > 0 && v[v.len() - 1] != '/' {
        crate::text::push_char(&mut r, '/');
    }
    r.append(name);
    r
}

/// Plans the seed of the directory `dir` (resolved against the working
/// directory) from what exists there: `exists[0..4]` for `AGENTS.md`,
/// `index.md`, `log.md`, `SDD.md` and `exists[4..8]` for the knowledge-area
/// directories.
pub fn plan(
    options: KnowledgeOptions,
    dir: String,
    dir_exists: bool,
    dir_is_dir: bool,
    exists: [bool; 8],
) -> (r: Result<KnowledgePlan, String>)
    ensures
        match plan_error(options, dir@, dir_exists, dir_is_dir) {
            Some(m) => r matches Err(e) && e@ == m,
            None => r matches Ok(p) && p.dir_view() == dir@ && p.url_view() == match options.url {
                Some(u) => Some(u@),
                None => None,
            } && p.items_view().len() == 8 && (forall|i: int|
                0 <= i < 4 ==> (#[trigger] p.items_view()[i]).path@ == child_path(dir@, seed_file(i))
                    && p.items_view()[i].action == file_action(exists@[i], options.force)) && (forall|i: int|
                4 <= i < 8 ==> (#[trigger] p.items_view()[i]).path@ == child_path(dir@, area_name(i - 4))
                    && p.items_view()[i].action == directory_action(exists@[i])),
        },
{
    match &options.url {
        Some(u) => {
            let v = crate::text::chars_of(u.as_str());
            if crate::text::blank(v.as_slice()) {
                return Err(String::from_str("--url must be a non-empty source URL."));
            }
        },
        None => {},
    }
    if dir_exists && !dir_is_dir {
        let mut m = String::from_str("The knowledge-base path ");
        m.append(display_path(dir.as_str()).as_str());
        m.append(" exists but is not a directory.");
        return Err(m);
    }
    let names = [AGENTS_FILENAME, INDEX_FILENAME, LOG_FILENAME, SDD_FILENAME];
    assert(names@[0]@ == seed_file(0) && names@[1]@ == seed_file(1) && names@[2]@ == seed_file(2) && names@[3]@ == seed_file(3));
    let mut items: Vec<KnowledgeItem> = Vec::new();
    let mut i: usize = 0;
    while i < 4
        invariant
            i <= 4,
            items@.len() == i,
            forall|k: int| 0 <= k < 4 ==> (#[trigger] names@[k])@ == seed_file(k),
            forall|k: int|
                0 <= k < i ==> (#[trigger] items@[k]).path@ == child_path(dir@, seed_file(k))
                    && items@[k].action == file_action(exists@[k], options.force),
        decreases 4 - i,
    {
        let action = if !exists[i] {
            KnowledgeAction::Create
        } else if options.force {
            KnowledgeAction::Overwrite
        } else {
            KnowledgeAction::Keep
        };
        items.push(KnowledgeItem { path: child(dir.as_str(), names[i]), action });
        i = i + 1;
    }
    let mut a: usize = 0;
    while a < AREA_COUNT
        invariant
            a <= AREA_COUNT,
            items@.len() == 4 + a,
            forall|k: int|
                0 <= k < 4 ==> (#[trigger] items@[k]).path@ == child_path(dir@, seed_file(k))
                    && items@[k].action == file_action(exists@[k], options.force),
            forall|k: int|
                4 <= k < 4 + a ==> (#[trigger] items@[k]).path@ == child_path(dir@, area_name(k - 4))
                    && items@[k].action == directory_action(exists@[k]),
        decreases AREA_COUNT - a,
    {
        let (name, _) = knowledge_area(a);
        let action = if exists[4 + a] {
            KnowledgeAction::Keep
        } else {
            KnowledgeAction::Create
        };
        items.push(KnowledgeItem { path: child(dir.as_str(), name), action });
        a = a + 1;
    }
    Ok(KnowledgePlan { items, options, resolved_dir: dir })
}

// ---------------------------------------------------------------------------
// Seed documents
// ---------------------------------------------------------------------------
/// The header of `AGENTS.md`: the root, and the source when there is one.
pub open spec fn agents_header(url: Option<Seq<char>>, root: Seq<char>) -> Seq<char> {
    match url {
        Some(u) => "Knowledge base: `"@ + root + "`\nSource: <"@ + u + ">"@,
        None => "Knowledge base: `"@ + root + "`"@,
    }
}

/// `AGENTS.md` of a seed rooted at `root` (as displayed).
pub open spec fn agents_text(url: Option<Seq<char>>, root: Seq<char>) -> Seq<char> {
    AGENTS_LEAD@ + agents_header(url, root) + "\n\n"@ + AGENTS_BODY@
}

/// The header of `index.md`: the root, and the source when there is one.
pub open spec fn index_header(url: Option<Seq<char>>, root: Seq<char>) -> Seq<char> {
    match url {
        Some(u) => "Root: `"@ + root + "`\nSource: <"@ + u + ">"@,
        None => "Root: `"@ + root + "`"@,
    }
}

/// `index.md` of a seed rooted at `root` (as displayed).
pub open spec fn index_text(url: Option<Seq<char>>, root: Seq<char>) -> Seq<char> {
    INDEX_LEAD@ + index_header(url, root) + "\n\n"@ + INDEX_BODY@
}

/// `log.md` of a seed created at `stamp`.
pub open spec fn log_text(url: Option<Seq<char>>, stamp: Seq<char>) -> Seq<char> {
    LOG_LEAD@ + match url {
        Some(u) => "Source: <"@ + u + ">"@ + "\n\n"@,
        None => seq![] + "\n"@,
    } + LOG_ENTRY@ + stamp + LOG_BODY@
}

pub const AGENTS_LEAD: &'static str = "# AGENTS.md — Global context\n\n> Read this file before answering, advising, planning, or changing work in this knowledge base.\n\n";

pub const AGENTS_BODY: &'static str = "## Who this is for\n\n- Owner / team: _Add the people, domain, and working preferences that should shape every response._\n- 2026 outcomes: _Add the concrete goals that matter this year._\n\n## Non-negotiable rules\n\n- Before giving advice or starting implementation, search and read the relevant material in `notes/`.\n- Do not substitute generic boilerplate for this knowledge base's recorded facts, preferences, or decisions.\n- Treat verified material in `notes/` as the source of truth; clearly label uncertainty and hypotheses.\n- Preserve the user's original reasoning in `ideas/`; do not flatten it into generic recommendations.\n- After meaningful work, update the relevant project record and append a concise verified entry to `log.md`.\n\n## Knowledge areas\n\n- Read [[SDD]] before creating or advancing a spec-driven change; it defines the required artifacts, state transitions, and host handoff protocol.\n\n- `sdd/` — spec-driven changes under `sdd/changes/` and completed changes under `sdd/archives/`.\n- `notes/` — processed, linked facts, technical references, and research; the reusable source of truth.\n- `ideas/` — original thinking, taste, decision rationale, and working heuristics.\n- `projects/` — active work: briefs, plans, implementation notes, decisions, and verification records.\n\n## Working method\n\n1. Read this file, then use `wiki read` to orient yourself.\n2. Search `notes/` before making recommendations or implementation choices.\n3. Use `ideas/` to preserve the owner's reasoning and `projects/` to continue active work with context.\n4. Keep SDD change specifications under `sdd/changes/`; archive verified changes under `sdd/archives/`.\n\n## Knowledge graph and Graph-RAG\n\n- Run wiki index --path <PATH> after adding or changing Markdown; it builds the rebuildable local graph and FTS index under .wiki/.\n- Use wiki harness --path <PATH> --query \"...\" --format json as the integration entry point; it refreshes the index and combines orientation with task evidence.\n- Use wiki harness --path <PATH> --query \"...\" --format prompt when passing source-aware context to a downstream answerer.\n- Inspect graph structure with wiki graph stats, wiki graph entities, wiki graph neighbors, wiki graph path, and wiki graph export.\n- Search graph-aware evidence with wiki rag search --path <PATH> --query \"...\"; use wiki rag context to produce a bounded evidence package.\n- Ask a source-aware question with wiki rag ask --path <PATH> --query \"...\"; use --format json for automation or --format prompt for a downstream answerer.\n- Treat Markdown as authoritative. Extracted entities and co-occurrence relations are retrieval hints, not automatically verified semantic facts.\n\n";

pub const INDEX_LEAD: &'static str = "# Knowledge base\n\n";

pub const INDEX_BODY: &'static str = "## Start here\n\n- Read [[AGENTS]] first. It defines the owner context, goals, and non-negotiable working rules.\n- Read [[SDD]] for the spec-driven development workflow and artifact contract.\n- Use `wiki read` for a concise overview and `wiki search` to find connected material.\n\n- Use wiki harness --path docs --query \"...\" --format json as the single context entry point for agents and automation.\n## Knowledge areas\n\n- `sdd/` — active changes in `sdd/changes/` and archived changes in `sdd/archives/`.\n- `notes/` — verified, reusable source-of-truth knowledge.\n- `ideas/` — original thinking and decision rationale.\n- `projects/` — active work and its plans, decisions, and verification.\n\n## Catalog\n\n- _No pages yet. Add markdown files to the appropriate area and list durable entry points here._\n\n## Conventions\n\n- Search the relevant material in `notes/` before advice, design, or implementation.\n- Keep original thinking in `ideas/`, active work records in `projects/`, and SDD changes in `sdd/`.\n- Record meaningful work as a `## [YYYY-MM-DD] action | summary | [[link]]` entry in `log.md`.\n- Keep `index.md` in sync with durable entry points.\n";

pub const LOG_LEAD: &'static str = "# Knowledge-base log\n\n";

pub const LOG_ENTRY: &'static str = "## [";

pub const LOG_BODY: &'static str = "] init | seed knowledge base | [[AGENTS]]\n- Created AGENTS.md, SDD.md, notes/, ideas/, projects/, and sdd/{changes,archives}/; update the relevant project record after meaningful work.\n";

pub open spec fn opt_url(url: Option<&str>) -> Option<Seq<char>> {
    match url {
        Some(u) => Some(u@),
        None => None,
    }
}

/// Renders `AGENTS.md` for a seed at `root`.
pub fn render_agents(url: Option<&str>, root: &str) -> (r: String)
    ensures
        r@ == agents_text(opt_url(url), display_form(root@)),
{
    let shown = display_path(root);
    let mut out = String::from_str(AGENTS_LEAD);
    out.append("Knowledge base: `");
    out.append(shown.as_str());
    match url {
        Some(u) => {
            out.append("`\nSource: <");
            out.append(u);
            out.append(">");
        },
        None => {
            out.append("`");
        },
    }
    out.append("\n\n");
    out.append(AGENTS_BODY);
    assert(out@ =~= agents_text(opt_url(url), display_form(root@)));
    out
}

/// Renders `index.md` for a seed at `root`.
pub fn render_index(url: Option<&str>, root: &str) -> (r: String)
    ensures
        r@ == index_text(opt_url(url), display_form(root@)),
{
    let shown = display_path(root);
    let mut out = String::from_str(INDEX_LEAD);
    out.append("Root: `");
    out.append(shown.as_str());
    match url {
        Some(u) => {
            out.append("`\nSource: <");
            out.append(u);
            out.append(">");
        },
        None => {
            out.append("`");
        },
    }
    out.append("\n\n");
    out.append(INDEX_BODY);
    assert(out@ =~= index_text(opt_url(url), display_form(root@)));
    out
}

/// Renders `log.md` whose first entry is stamped `stamp`.
pub fn render_log(url: Option<&str>, stamp: &str) -> (r: String)
    ensures
        r@ == log_text(opt_url(url), stamp@),
{
    let mut out = String::from_str(LOG_LEAD);
    match url {
        Some(u) => {
            out.append("Source: <");
            out.append(u);
            out.append(">");
            out.append("\n\n");
        },
        None => {
            out.append("\n");
        },
    }
    out.append(LOG_ENTRY);
    out.append(stamp);
    out.append(LOG_BODY);
    assert(out@ =~= log_text(opt_url(url), stamp@));
    out
}

/// The content of seed file `i` (`AGENTS.md`, `index.md`, `log.md`,
/// `SDD.md`) for a seed at `dir` whose log is stamped `stamp`.
pub open spec fn seed_text(i: int, url: Option<Seq<char>>, dir: Seq<char>, stamp: Seq<char>) -> Seq<char> {
    if i == 0 {
        agents_text(url, display_form(dir))
    } else if i == 1 {
        index_text(url, display_form(dir))
    } else if i == 2 {
        log_text(url, stamp)
    } else {
        crate::sdd_template::SDD_TEMPLATE@
    }
}

/// The seed files among the first `n` items that a commit writes, with
/// their contents: the seed files (the first four items) that are created
/// or overwritten.
pub open spec fn planned_writes(items: Seq<KnowledgeItem>, url: Option<Seq<char>>, dir: Seq<char>, stamp: Seq<char>, n: nat) -> Seq<(Seq<char>, Seq<char>)>
    decreases n,
{
    if n == 0 || n > items.len() {
        seq![]
    } else {
        let rest = planned_writes(items, url, dir, stamp, (n - 1) as nat);
        let i = n - 1;
        if i < 4 && writes(items[i].action) {
            rest.push((items[i].path@, seed_text(i, url, dir, stamp)))
        } else {
            rest
        }
    }
}

/// The notes for the seed files among the first `n` items that are kept.
pub open spec fn keep_notes(items: Seq<KnowledgeItem>, n: nat) -> Seq<Seq<char>>
    decreases n,
{
    if n == 0 || n > items.len() {
        seq![]
    } else {
        let rest = keep_notes(items, (n - 1) as nat);
        let i = n - 1;
        if i < 4 && items[i].action is Keep {
            rest.push("Kept existing "@ + display_form(items[i].path@) + "; pass --force to overwrite."@)
        } else {
            rest
        }
    }
}

/// A seed file to write.
pub struct SeedWrite {
    pub path: String,
    pub content: String,
}

pub open spec fn write_views(v: Seq<SeedWrite>) -> Seq<(Seq<char>, Seq<char>)> {
    Seq::new(v.len(), |i: int| (v[i].path@, v[i].content@))
}

/// The files a commit of `plan` writes, in order, with the log stamped
/// `stamp`.
pub fn seed_writes(plan: &KnowledgePlan, stamp: &str) -> (r: Vec<SeedWrite>)
    ensures
        write_views(r@) == planned_writes(plan.items_view(), plan.url_view(), plan.dir_view(), stamp@, plan.items_view().len()),
{
    let items = plan.preview();
    let url = plan.url();
    let dir = plan.resolved_dir();
    let mut out: Vec<SeedWrite> = Vec::new();
    let mut i: usize = 0;
    while i < items.len()
        invariant
            i <= items@.len(),
            items@ == plan.items_view(),
            opt_url(url) == plan.url_view(),
            dir@ == plan.dir_view(),
            write_views(out@) == planned_writes(plan.items_view(), plan.url_view(), plan.dir_view(), stamp@, i as nat),
        decreases items@.len() - i,
    {
        if i < 4 && items[i].action.is_written() {
            let content = if i == 0 {
                render_agents(url, dir)
            } else if i == 1 {
                render_index(url, dir)
            } else if i == 2 {
                render_log(url, stamp)
            } else {
                String::from_str(crate::sdd_template::SDD_TEMPLATE)
            };
            let ghost before = write_views(out@);
            out.push(SeedWrite { path: items[i].path.clone(), content });
            assert(write_views(out@) =~= before.push((items@[i as int].path@, seed_text(i as int, plan.url_view(), plan.dir_view(), stamp@))));
        }
        i = i + 1;
    }
    out
}

/// The receipt of a commit of `plan` that wrote every planned file: the
/// number written, a note per kept seed file, and a closing note.
pub fn commit_receipt(plan: &KnowledgePlan) -> (r: OperationReceipt)
    ensures
        r.changed_targets == planned_writes(plan.items_view(), plan.url_view(), plan.dir_view(), seq![], plan.items_view().len()).len(),
        str_views(r.notes@) == keep_notes(plan.items_view(), plan.items_view().len()).push(
            if r.changed_targets == 0 {
                "No changes were needed."@
            } else {
                "Knowledge base ready at "@ + display_form(plan.dir_view()) + "."@
            },
        ),
{
    let items = plan.preview();
    let mut written: usize = 0;
    let mut notes: Vec<String> = Vec::new();
    let mut i: usize = 0;
    while i < items.len()
        invariant
            i <= items@.len(),
            items@ == plan.items_view(),
            written == planned_writes(plan.items_view(), plan.url_view(), plan.dir_view(), seq![], i as nat).len(),
            written <= i,
            str_views(notes@) == keep_notes(plan.items_view(), i as nat),
        decreases items@.len() - i,
    {
        if i < 4 {
            match items[i].action {
                KnowledgeAction::Keep => {
                    let mut m = String::from_str("Kept existing ");
                    m.append(display_path(items[i].path.as_str()).as_str());
                    m.append("; pass --force to overwrite.");
                    let ghost before = str_views(notes@);
                    notes.push(m);
                    assert(str_views(notes@) =~= before.push(m@));
                },
                _ => {
                    written = written + 1;
                },
            }
        }
        i = i + 1;
    }
    let last = if written == 0 {
        String::from_str("No changes were needed.")
    } else {
        let mut m = String::from_str("Knowledge base ready at ");
        m.append(display_path(plan.resolved_dir()).as_str());
        m.append(".");
        m
    };
    let ghost before = str_views(notes@);
    notes.push(last);
    assert(str_views(notes@) =~= before.push(last@));
    OperationReceipt { changed_targets: written, notes }
}

} // verus!
