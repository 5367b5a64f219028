//! The neighbours of an entity in the relation graph: its relations
//! grouped by the other entity, the direction and the predicate, with the
//! strongest confidence of each group and its evidence in path order.
//!
//! Confidences travel as order keys: integers whose order is the order of
//! the confidences they stand for.

use vstd::prelude::*;
use crate::text::{chars_equal, chars_lt, chars_of, lex_lt, string_of};

verus! {

/// An extracted entity with its number of mentions.
pub struct EntityRecord {
    pub id: String,
    pub canonical_name: String,
    pub entity_type: String,
    /// Order key of the entity's confidence.
    pub confidence: u64,
    pub status: String,
    pub mentions: usize,
}

/// A quoted line range that supports a relation.
pub struct EntityEvidence {
    pub path: String,
    pub start_line: usize,
    pub end_line: usize,
    pub quote: String,
}

/// One relation of the entity, joined with the other entity and with one
/// piece of evidence when there is one.
pub struct RelationRow {
    pub subject_id: String,
    pub predicate: String,
    pub object_id: String,
    /// Order key of the relation's confidence.
    pub confidence: u64,
    pub entity: EntityRecord,
    pub evidence: Option<EntityEvidence>,
}

/// A neighbour of the entity: the direction and predicate of the relation,
/// its strongest confidence, the other entity and the evidence.
pub struct EntityNeighbor {
    pub direction: String,
    pub predicate: String,
    /// Order key of the strongest confidence of the group.
    pub confidence: u64,
    pub entity: EntityRecord,
    pub evidence: Vec<EntityEvidence>,
}

pub type RecordView = (Seq<char>, Seq<char>, Seq<char>, nat, Seq<char>, nat);

pub type EvidenceView = (Seq<char>, nat, nat, Seq<char>);

pub open spec fn record_view(e: EntityRecord) -> RecordView {
    (e.id@, e.canonical_name@, e.entity_type@, e.confidence as nat, e.status@, e.mentions as nat)
}

pub open spec fn evidence_view(e: EntityEvidence) -> EvidenceView {
    (e.path@, e.start_line as nat, e.end_line as nat, e.quote@)
}

pub open spec fn evidence_views(v: Seq<EntityEvidence>) -> Seq<EvidenceView> {
    Seq::new(v.len(), |i: int| evidence_view(v[i]))
}

/// `outgoing` when the entity is the relation's subject, else `incoming`.
pub open spec fn direction_of(root: Seq<char>, r: RelationRow) -> Seq<char> {
    if r.subject_id@ == root { "outgoing"@ } else { "incoming"@ }
}

/// The grouping key of a row: the relation's object, its direction and its
/// predicate.
pub open spec fn row_key(root: Seq<char>, r: RelationRow) -> (Seq<char>, Seq<char>, Seq<char>) {
    (r.object_id@, direction_of(root, r), r.predicate@)
}

/// Key order: by object, then direction, then predicate.
pub open spec fn key_lt(a: (Seq<char>, Seq<char>, Seq<char>), b: (Seq<char>, Seq<char>, Seq<char>)) -> bool {
    lex_lt(a.0, b.0) || (a.0 == b.0 && (lex_lt(a.1, b.1) || (a.1 == b.1 && lex_lt(a.2, b.2))))
}

/// Evidence order: by path, then start line.
pub open spec fn ev_le(a: EvidenceView, b: EvidenceView) -> bool {
    lex_lt(a.0, b.0) || (a.0 == b.0 && a.1 <= b.1)
}

/// `e` placed after the last element that is not after it: one step of
/// a stable sort by path and start line.
pub open spec fn insert_ev(s: Seq<EvidenceView>, e: EvidenceView) -> Seq<EvidenceView>
    decreases s.len(),
{
    if s.len() == 0 {
        seq![e]
    } else if ev_le(s.last(), e) {
        s.push(e)
    } else {
        insert_ev(s.drop_last(), e).push(s.last())
    }
}

/// `s` without elements equal to the one before them.
pub open spec fn dedup_ev(s: Seq<EvidenceView>) -> Seq<EvidenceView>
    decreases s.len(),
{
    if s.len() < 2 {
        s
    } else if s.last() == s[s.len() - 2] {
        dedup_ev(s.drop_last())
    } else {
        dedup_ev(s.drop_last()).push(s.last())
    }
}

/// A group while rows are read: the first row with its key, the largest
/// confidence key, and the evidence stably sorted by path and line.
pub type GroupView = (int, nat, Seq<EvidenceView>);

/// The groups of the first `n` rows, by key.
pub open spec fn grouped(root: Seq<char>, rows: Seq<RelationRow>, n: nat) -> Map<(Seq<char>, Seq<char>, Seq<char>), GroupView>
    decreases n,
{
    if n == 0 || n > rows.len() {
        Map::empty()
    } else {
        let g = grouped(root, rows, (n - 1) as nat);
        let r = rows[n - 1];
        let k = row_key(root, r);
        if g.dom().contains(k) {
            let old_g = g[k];
            let conf: nat = if r.confidence > old_g.1 { r.confidence as nat } else { old_g.1 };
            let ev = match r.evidence {
                Some(e) => insert_ev(old_g.2, evidence_view(e)),
                None => old_g.2,
            };
            g.insert(k, (old_g.0, conf, ev))
        } else {
            let ev = match r.evidence {
                Some(e) => seq![evidence_view(e)],
                None => seq![],
            };
            g.insert(k, (n - 1, r.confidence as nat, ev))
        }
    }
}

/// The neighbour a group of rows gives.
pub open spec fn neighbor_of(root: Seq<char>, rows: Seq<RelationRow>, g: GroupView) -> (Seq<char>, Seq<char>, nat, RecordView, Seq<EvidenceView>) {
    let r = rows[g.0];
    (direction_of(root, r), r.predicate@, g.1, record_view(r.entity), dedup_ev(g.2))
}

pub open spec fn neighbor_view(n: EntityNeighbor) -> (Seq<char>, Seq<char>, nat, RecordView, Seq<EvidenceView>) {
    (n.direction@, n.predicate@, n.confidence as nat, record_view(n.entity), evidence_views(n.evidence@))
}

/// `keys` is the domain of `m` in key order.
pub open spec fn keys_in_order(m: Map<(Seq<char>, Seq<char>, Seq<char>), GroupView>, keys: Seq<(Seq<char>, Seq<char>, Seq<char>)>) -> bool {
    &&& forall|i: int, j: int| 0 <= i < j < keys.len() ==> key_lt(#[trigger] keys[i], #[trigger] keys[j])
    &&& forall|i: int| 0 <= i < keys.len() ==> m.dom().contains(#[trigger] keys[i])
    &&& forall|k| #[trigger] m.dom().contains(k) ==> keys.contains(k)
}

/// The clamp of a neighbour limit to `1..=500`.
pub open spec fn neighbor_limit(limit: nat) -> nat {
    if limit < 1 { 1 } else if limit > 500 { 500 } else { limit }
}

fn copy_string(s: &String) -> (r: String)
    ensures
        r@ == s@,
{
    string_of(chars_of(s.as_str()).as_slice())
}

fn same_text(a: &String, b: &String) -> (r: bool)
    ensures
        r == (a@ == b@),
{
    chars_equal(chars_of(a.as_str()).as_slice(), chars_of(b.as_str()).as_slice())
}

fn text_lt(a: &String, b: &String) -> (r: bool)
    ensures
        r == lex_lt(a@, b@),
{
    chars_lt(chars_of(a.as_str()).as_slice(), chars_of(b.as_str()).as_slice())
}

fn copy_record(e: &EntityRecord) -> (r: EntityRecord)
    ensures
        record_view(r) == record_view(*e),
{
    EntityRecord {
        id: copy_string(&e.id),
        canonical_name: copy_string(&e.canonical_name),
        entity_type: copy_string(&e.entity_type),
        confidence: e.confidence,
        status: copy_string(&e.status),
        mentions: e.mentions,
    }
}

fn copy_evidence(e: &EntityEvidence) -> (r: EntityEvidence)
    ensures
        evidence_view(r) == evidence_view(*e),
{
    EntityEvidence {
        path: copy_string(&e.path),
        start_line: e.start_line,
        end_line: e.end_line,
        quote: copy_string(&e.quote),
    }
}

fn evidence_le(a: &EntityEvidence, b: &EntityEvidence) -> (r: bool)
    ensures
        r == ev_le(evidence_view(*a), evidence_view(*b)),
{
    text_lt(&a.path, &b.path) || (same_text(&a.path, &b.path) && a.start_line <= b.start_line)
}

fn evidence_eq(a: &EntityEvidence, b: &EntityEvidence) -> (r: bool)
    ensures
        r == (evidence_view(*a) == evidence_view(*b)),
{
    same_text(&a.path, &b.path) && a.start_line == b.start_line && a.end_line == b.end_line && same_text(
        &a.quote,
        &b.quote,
    )
}

proof fn lemma_insert_ev_at(s: Seq<EvidenceView>, e: EvidenceView, j: int)
    requires
        0 <= j <= s.len(),
        forall|m: int| j <= m < s.len() ==> !ev_le(#[trigger] s[m], e),
        j > 0 ==> ev_le(s[j - 1], e),
    ensures
        insert_ev(s, e) == s.insert(j, e),
    decreases s.len(),
{
    if s.len() == 0 {
        assert(s.insert(j, e) =~= seq![e]);
    } else if j == s.len() {
        assert(s.insert(j, e) =~= s.push(e));
    } else {
        assert(!ev_le(s.last(), e));
        lemma_insert_ev_at(s.drop_last(), e, j);
        assert(s.insert(j, e) =~= s.drop_last().insert(j, e).push(s.last()));
    }
}

/// Inserts `e` after the last evidence that is not after it.
fn insert_evidence(v: &mut Vec<EntityEvidence>, e: EntityEvidence)
    ensures
        evidence_views(final(v)@) == insert_ev(evidence_views(old(v)@), evidence_view(e)),
{
    let ghost before = evidence_views(v@);
    let mut j: usize = v.len();
    while j > 0 && !evidence_le(&v[j - 1], &e)
        invariant
            j <= v@.len(),
            before == evidence_views(v@),
            forall|m: int| j <= m < before.len() ==> !ev_le(#[trigger] before[m], evidence_view(e)),
        decreases j,
    {
        j = j - 1;
    }
    proof {
        lemma_insert_ev_at(before, evidence_view(e), j as int);
    }
    let ghost ee = evidence_view(e);
    v.insert(j, e);
    assert(evidence_views(v@) =~= before.insert(j as int, ee));
}

/// `v` without evidence equal to the one before it.
fn dedup_evidence(v: &Vec<EntityEvidence>) -> (r: Vec<EntityEvidence>)
    ensures
        evidence_views(r@) == dedup_ev(evidence_views(v@)),
{
    let ghost s = evidence_views(v@);
    let mut out: Vec<EntityEvidence> = Vec::new();
    let mut i: usize = 0;
    while i < v.len()
        invariant
            i <= v@.len(),
            s == evidence_views(v@),
            evidence_views(out@) == dedup_ev(s.take(i as int)),
        decreases v@.len() - i,
    {
        proof {
            assert(s.take(i + 1).drop_last() =~= s.take(i as int));
            assert(s.take(i + 1).last() == s[i as int]);
            if i > 0 {
                assert(s.take(i + 1)[i - 1] == s[i - 1]);
            }
        }
        if i == 0 || !evidence_eq(&v[i], &v[i - 1]) {
            let ghost before = evidence_views(out@);
            let c = copy_evidence(&v[i]);
            out.push(c);
            assert(evidence_views(out@) =~= before.push(s[i as int]));
        }
        i = i + 1;
    }
    assert(s.take(v@.len() as int) =~= s);
    out
}

/// `r` lists the neighbours of the groups of all rows in key order, as
/// many as the clamped limit allows.
pub open spec fn neighbors_listed(root: Seq<char>, rows: Seq<RelationRow>, limit: nat, r: Seq<EntityNeighbor>) -> bool {
    exists|keys: Seq<(Seq<char>, Seq<char>, Seq<char>)>| {
        &&& #[trigger] keys_in_order(grouped(root, rows, rows.len()), keys)
        &&& r.len() == if neighbor_limit(limit) < keys.len() { neighbor_limit(limit) } else { keys.len() }
        &&& forall|i: int| 0 <= i < r.len() ==> neighbor_view(#[trigger] r[i]) == neighbor_of(root, rows, grouped(root, rows, rows.len())[keys[i]])
    }
}

proof fn lemma_key_lt_irreflexive(a: (Seq<char>, Seq<char>, Seq<char>))
    ensures
        !key_lt(a, a),
{
    crate::text::lemma_lex_irreflexive(a.0);
    crate::text::lemma_lex_irreflexive(a.1);
    crate::text::lemma_lex_irreflexive(a.2);
}

proof fn lemma_key_lt_total(a: (Seq<char>, Seq<char>, Seq<char>), b: (Seq<char>, Seq<char>, Seq<char>))
    requires
        a != b,
    ensures
        key_lt(a, b) || key_lt(b, a),
{
    if a.0 != b.0 {
        crate::text::lemma_lex_total(a.0, b.0);
    } else if a.1 != b.1 {
        crate::text::lemma_lex_total(a.1, b.1);
    } else {
        crate::text::lemma_lex_total(a.2, b.2);
    }
}

proof fn lemma_key_lt_transitive(a: (Seq<char>, Seq<char>, Seq<char>), b: (Seq<char>, Seq<char>, Seq<char>), c: (Seq<char>, Seq<char>, Seq<char>))
    requires
        key_lt(a, b),
        key_lt(b, c),
    ensures
        key_lt(a, c),
{
    if lex_lt(a.0, b.0) && lex_lt(b.0, c.0) {
        crate::text::lemma_lex_transitive(a.0, b.0, c.0);
    }
    if a.0 == b.0 && b.0 == c.0 {
        if lex_lt(a.1, b.1) && lex_lt(b.1, c.1) {
            crate::text::lemma_lex_transitive(a.1, b.1, c.1);
        }
        if a.1 == b.1 && b.1 == c.1 && lex_lt(a.2, b.2) && lex_lt(b.2, c.2) {
            crate::text::lemma_lex_transitive(a.2, b.2, c.2);
        }
    }
}

/// A group being built.
struct Group {
    object: String,
    direction: String,
    predicate: String,
    first: usize,
    confidence: u64,
    evidence: Vec<EntityEvidence>,
}

spec fn group_key(g: Group) -> (Seq<char>, Seq<char>, Seq<char>) {
    (g.object@, g.direction@, g.predicate@)
}

spec fn group_val(g: Group) -> GroupView {
    (g.first as int, g.confidence as nat, evidence_views(g.evidence@))
}

spec fn has_group(gs: Seq<Group>, k: (Seq<char>, Seq<char>, Seq<char>)) -> bool {
    exists|i: int| 0 <= i < gs.len() && group_key(#[trigger] gs[i]) == k
}

spec fn groups_ok(root: Seq<char>, rows: Seq<RelationRow>, t: nat, gs: Seq<Group>) -> bool {
    &&& forall|i: int, j: int| 0 <= i < j < gs.len() ==> key_lt(group_key(#[trigger] gs[i]), group_key(#[trigger] gs[j]))
    &&& forall|i: int| 0 <= i < gs.len() ==> grouped(root, rows, t).dom().contains(group_key(#[trigger] gs[i]))
        && grouped(root, rows, t)[group_key(gs[i])] == group_val(gs[i]) && gs[i].first < t
    &&& forall|k| #[trigger] grouped(root, rows, t).dom().contains(k) ==> has_group(gs, k)
}

proof fn lemma_grouped_firsts(root: Seq<char>, rows: Seq<RelationRow>, t: nat)
    requires
        t <= rows.len(),
    ensures
        forall|k| #[trigger] grouped(root, rows, t).dom().contains(k) ==> 0 <= grouped(root, rows, t)[k].0 < t
            && row_key(root, rows[grouped(root, rows, t)[k].0]) == k,
    decreases t,
{
    if t > 0 {
        lemma_grouped_firsts(root, rows, (t - 1) as nat);
        let g = grouped(root, rows, (t - 1) as nat);
        let nk = row_key(root, rows[t - 1]);
        assert forall|k| #[trigger] grouped(root, rows, t).dom().contains(k) implies 0 <= grouped(root, rows, t)[k].0 < t
            && row_key(root, rows[grouped(root, rows, t)[k].0]) == k by {
            if k != nk {
                assert(g.dom().contains(k));
                assert(grouped(root, rows, t)[k] == g[k]);
            }
        }
    }
}

fn find_group(gs: &Vec<Group>, object: &String, direction: &String, predicate: &String) -> (r: Option<usize>)
    ensures
        match r {
            Some(i) => i < gs@.len() && group_key(gs@[i as int]) == (object@, direction@, predicate@),
            None => !has_group(gs@, (object@, direction@, predicate@)),
        },
{
    let mut i: usize = 0;
    while i < gs.len()
        invariant
            i <= gs@.len(),
            forall|j: int| 0 <= j < i ==> group_key(#[trigger] gs@[j]) != (object@, direction@, predicate@),
        decreases gs@.len() - i,
    {
        if same_text(&gs[i].object, object) && same_text(&gs[i].direction, direction) && same_text(&gs[i].predicate, predicate) {
            return Some(i);
        }
        i = i + 1;
    }
    None
}

fn group_before(g: &Group, object: &String, direction: &String, predicate: &String) -> (r: bool)
    ensures
        r == key_lt(group_key(*g), (object@, direction@, predicate@)),
{
    text_lt(&g.object, object) || (same_text(&g.object, object) && (text_lt(&g.direction, direction) || (same_text(
        &g.direction,
        direction,
    ) && text_lt(&g.predicate, predicate))))
}

/// The neighbours of entity `root_id` from its relation rows: one per
/// (object, direction, predicate) in that order, each with the strongest
/// confidence of its rows, the other entity of its first row and its
/// evidence sorted by path and start line without repeats; at most
/// `limit` (clamped to `1..=500`) of them.
pub fn group_neighbors(root_id: &str, rows: &Vec<RelationRow>, limit: usize) -> (r: Vec<EntityNeighbor>)
    ensures
        neighbors_listed(root_id@, rows@, limit as nat, r@),
{
    let ghost root = root_id@;
    let mut gs: Vec<Group> = Vec::new();
    let mut t: usize = 0;
    while t < rows.len()
        invariant
            t <= rows@.len(),
            root == root_id@,
            groups_ok(root, rows@, t as nat, gs@),
        decreases rows@.len() - t,
    {
        let r = &rows[t];
        let outgoing = crate::text::chars_equal_str(chars_of(r.subject_id.as_str()).as_slice(), root_id);
        let direction = if outgoing { String::from_str("outgoing") } else { String::from_str("incoming") };
        let ghost k = row_key(root, rows@[t as int]);
        assert((r.object_id@, direction@, r.predicate@) == k);
        let ghost m = grouped(root, rows@, t as nat);
        let ghost m2 = grouped(root, rows@, (t + 1) as nat);
        match find_group(&gs, &r.object_id, &direction, &r.predicate) {
            Some(i) => {
                let ghost before = gs@;
                proof {
                    assert(m.dom().contains(k));
                    assert forall|x: int| 0 <= x < before.len() && x != i implies group_key(#[trigger] before[x]) != k by {
                        if x < i {
                            assert(key_lt(group_key(before[x]), group_key(before[i as int])));
                        } else {
                            assert(key_lt(group_key(before[i as int]), group_key(before[x])));
                        }
                        lemma_key_lt_irreflexive(k);
                    }
                }
                let mut g = gs.remove(i);
                if r.confidence > g.confidence {
                    g.confidence = r.confidence;
                }
                match &r.evidence {
                    Some(e) => {
                        insert_evidence(&mut g.evidence, copy_evidence(e));
                    },
                    None => {},
                }
                gs.insert(i, g);
                proof {
                    assert(gs@ =~= before.update(i as int, g));
                    assert(m2 == m.insert(k, group_val(g)));
                    assert forall|x: int| 0 <= x < gs@.len() implies m2.dom().contains(group_key(#[trigger] gs@[x]))
                        && m2[group_key(gs@[x])] == group_val(gs@[x]) && gs@[x].first < t + 1 by {
                        if x != i {
                            assert(gs@[x] == before[x]);
                        }
                    }
                    assert forall|kk| #[trigger] m2.dom().contains(kk) implies has_group(gs@, kk) by {
                        if kk == k {
                            assert(group_key(gs@[i as int]) == kk);
                        } else {
                            assert(m.dom().contains(kk));
                            assert(has_group(before, kk));
                            let x = choose|x: int| 0 <= x < before.len() && group_key(#[trigger] before[x]) == kk;
                            assert(group_key(gs@[x]) == kk);
                        }
                    }
                }
            },
            None => {
                proof {
                    if m.dom().contains(k) {
                        assert(has_group(gs@, k));
                    }
                }
                let mut p: usize = 0;
                while p < gs.len() && group_before(&gs[p], &r.object_id, &direction, &r.predicate)
                    invariant
                        p <= gs@.len(),
                        k == (r.object_id@, direction@, r.predicate@),
                        forall|x: int| 0 <= x < p ==> key_lt(group_key(#[trigger] gs@[x]), k),
                    decreases gs@.len() - p,
                {
                    p = p + 1;
                }
                let ghost before = gs@;
                proof {
                    if p < before.len() {
                        assert(group_key(before[p as int]) != k);
                        lemma_key_lt_total(group_key(before[p as int]), k);
                        assert forall|x: int| p <= x < before.len() implies key_lt(k, group_key(#[trigger] before[x])) by {
                            if x > p {
                                lemma_key_lt_transitive(k, group_key(before[p as int]), group_key(before[x]));
                            }
                        }
                    }
                }
                let mut ev: Vec<EntityEvidence> = Vec::new();
                match &r.evidence {
                    Some(e) => {
                        ev.push(copy_evidence(e));
                    },
                    None => {},
                }
                let g = Group {
                    object: copy_string(&r.object_id),
                    direction,
                    predicate: copy_string(&r.predicate),
                    first: t,
                    confidence: r.confidence,
                    evidence: ev,
                };
                proof {
                    assert(evidence_views(g.evidence@) =~= match rows@[t as int].evidence {
                        Some(e) => seq![evidence_view(e)],
                        None => seq![],
                    });
                }
                gs.insert(p, g);
                proof {
                    assert(gs@ =~= before.insert(p as int, g));
                    assert(m2 == m.insert(k, group_val(g)));
                    assert forall|x: int, y: int| 0 <= x < y < gs@.len() implies key_lt(group_key(#[trigger] gs@[x]), group_key(#[trigger] gs@[y])) by {
                        if x < p && y > p {
                            lemma_key_lt_transitive(group_key(before[x]), k, group_key(before[y - 1]));
                        } else if x < p && y < p {
                        } else if x > p {
                            assert(key_lt(group_key(before[x - 1]), group_key(before[y - 1])));
                        }
                    }
                    assert forall|x: int| 0 <= x < gs@.len() implies m2.dom().contains(group_key(#[trigger] gs@[x]))
                        && m2[group_key(gs@[x])] == group_val(gs@[x]) && gs@[x].first < t + 1 by {
                        if x < p {
                            assert(gs@[x] == before[x]);
                            assert(group_key(before[x]) != k);
                        } else if x > p {
                            assert(gs@[x] == before[x - 1]);
                            assert(group_key(before[x - 1]) != k);
                        }
                    }
                    assert forall|kk| #[trigger] m2.dom().contains(kk) implies has_group(gs@, kk) by {
                        if kk == k {
                            assert(group_key(gs@[p as int]) == kk);
                        } else {
                            assert(m.dom().contains(kk));
                            assert(has_group(before, kk));
                            let x = choose|x: int| 0 <= x < before.len() && group_key(#[trigger] before[x]) == kk;
                            if x < p {
                                assert(group_key(gs@[x]) == kk);
                            } else {
                                assert(group_key(gs@[x + 1]) == kk);
                            }
                        }
                    }
                }
            },
        }
        t = t + 1;
    }
    let cap: usize = if limit < 1 { 1 } else if limit > 500 { 500 } else { limit };
    let n: usize = if cap < gs.len() { cap } else { gs.len() };
    let ghost m = grouped(root, rows@, rows@.len());
    let ghost keys = Seq::new(gs@.len(), |i: int| group_key(gs@[i]));
    proof {
        lemma_grouped_firsts(root, rows@, rows@.len());
        assert forall|k| #[trigger] m.dom().contains(k) implies keys.contains(k) by {
            let x = choose|x: int| 0 <= x < gs@.len() && group_key(#[trigger] gs@[x]) == k;
            assert(keys[x] == k);
        }
        assert(keys_in_order(m, keys));
    }
    let mut out: Vec<EntityNeighbor> = Vec::new();
    let mut i: usize = 0;
    while i < n
        invariant
            i <= n <= gs@.len(),
            root == root_id@,
            groups_ok(root, rows@, rows@.len() as nat, gs@),
            m == grouped(root, rows@, rows@.len()),
            keys == Seq::new(gs@.len(), |x: int| group_key(gs@[x])),
            forall|k| #[trigger] m.dom().contains(k) ==> 0 <= m[k].0 < rows@.len() && row_key(root, rows@[m[k].0]) == k,
            out@.len() == i,
            forall|x: int| 0 <= x < i ==> neighbor_view(#[trigger] out@[x]) == neighbor_of(root, rows@, m[keys[x]]),
        decreases n - i,
    {
        let g = &gs[i];
        assert(keys[i as int] == group_key(*g));
        assert(m.dom().contains(group_key(*g)));
        let first = &rows[g.first];
        let ev = dedup_evidence(&g.evidence);
        let nb = EntityNeighbor {
            direction: copy_string(&g.direction),
            predicate: copy_string(&g.predicate),
            confidence: g.confidence,
            entity: copy_record(&first.entity),
            evidence: ev,
        };
        proof {
            assert(row_key(root, rows@[g.first as int]) == group_key(*g));
        }
        out.push(nb);
        i = i + 1;
    }
    proof {
        assert(neighbor_limit(limit as nat) == cap);
    }
    out
}

} // verus!
