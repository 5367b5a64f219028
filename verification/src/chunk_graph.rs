//! The entities a chunk mentions and the co-occurrence relations between
//! them, with the stable ids the index stores them under: SHA-256 digests
//! of their defining text.

use vstd::prelude::*;
use crate::digest::{hash_text, text_hash};
use crate::index::{cand_view, cand_views, CandidateView, EntityCandidate};
use crate::text::{chars_equal_str, chars_lt, chars_of, lemma_lex_irreflexive, lex_lt, string_of};

verus! {

/// Most entities recorded per chunk.
pub const MAX_ENTITIES_PER_CHUNK: usize = 32;

/// The predicate of the relation between entities of one chunk.
pub const CO_OCCURS: &'static str = "co_occurs_in_chunk";

/// The id of an entity: `entity:` and the digest of `type:name`.
pub open spec fn entity_key(kind: Seq<char>, name: Seq<char>) -> Seq<char> {
    "entity:"@ + text_hash(kind + ":"@ + name)
}

/// The id of a mention of an entity in a chunk at a byte span.
pub open spec fn mention_key(entity: Seq<char>, chunk: Seq<char>, start: nat, end: nat) -> Seq<char> {
    "mention:"@ + text_hash(entity + ":"@ + chunk + ":"@ + crate::fmt::decimal(start) + ":"@ + crate::fmt::decimal(end))
}

/// The id of a relation: `relation:` and the digest of
/// `subject:predicate:object`.
pub open spec fn relation_key(subject: Seq<char>, object: Seq<char>) -> Seq<char> {
    "relation:"@ + text_hash(subject + ":"@ + CO_OCCURS@ + ":"@ + object)
}

/// The id of the entity a candidate names.
pub fn entity_id(entity_type: &str, name: &str) -> (r: String)
    ensures
        r@ == entity_key(entity_type@, name@),
{
    let mut s = String::from_str(entity_type);
    s.append(":");
    s.append(name);
    let mut r = String::from_str("entity:");
    r.append(hash_text(s.as_str()).as_str());
    r
}

/// The id of a mention.
pub fn mention_id(entity: &str, chunk: &str, start: usize, end: usize) -> (r: String)
    ensures
        r@ == mention_key(entity@, chunk@, start as nat, end as nat),
{
    let mut s = String::from_str(entity);
    s.append(":");
    s.append(chunk);
    s.append(":");
    crate::fmt::push_decimal(&mut s, start as u64);
    s.append(":");
    crate::fmt::push_decimal(&mut s, end as u64);
    let mut r = String::from_str("mention:");
    r.append(hash_text(s.as_str()).as_str());
    r
}

/// The id of a co-occurrence relation.
pub fn relation_id(subject: &str, object: &str) -> (r: String)
    ensures
        r@ == relation_key(subject@, object@),
{
    let mut s = String::from_str(subject);
    s.append(":");
    s.append(CO_OCCURS);
    s.append(":");
    s.append(object);
    let mut r = String::from_str("relation:");
    r.append(hash_text(s.as_str()).as_str());
    r
}

/// The entity id of a candidate.
pub open spec fn cand_key(c: CandidateView) -> Seq<char> {
    entity_key(c.kind, c.name)
}

/// The largest confidence of the candidates with entity id `id`, or 0.
pub open spec fn best_confidence(cs: Seq<CandidateView>, id: Seq<char>) -> nat
    decreases cs.len(),
{
    if cs.len() == 0 {
        0
    } else {
        let rest = best_confidence(cs.drop_last(), id);
        if cand_key(cs.last()) == id && cs.last().confidence > rest { cs.last().confidence } else { rest }
    }
}

/// Some candidate has entity id `id`.
pub open spec fn names_entity(cs: Seq<CandidateView>, id: Seq<char>) -> bool {
    exists|i: int| 0 <= i < cs.len() && cand_key(#[trigger] cs[i]) == id
}

/// An entity of a chunk: its id and its best confidence in hundredths.
pub struct ChunkEntity {
    pub id: String,
    pub confidence: u32,
}

pub open spec fn entity_views(v: Seq<ChunkEntity>) -> Seq<(Seq<char>, nat)> {
    Seq::new(v.len(), |i: int| (v[i].id@, v[i].confidence as nat))
}

/// `es` lists each entity the candidates name once, in id order, with its
/// best confidence.
pub open spec fn entities_of(cs: Seq<CandidateView>, es: Seq<(Seq<char>, nat)>) -> bool {
    &&& forall|i: int, j: int| 0 <= i < j < es.len() ==> lex_lt((#[trigger] es[i]).0, (#[trigger] es[j]).0)
    &&& forall|i: int| 0 <= i < es.len() ==> names_entity(cs, (#[trigger] es[i]).0) && es[i].1 == best_confidence(cs, es[i].0)
    &&& forall|k: int| 0 <= k < cs.len() ==> listed(es, cand_key(#[trigger] cs[k]))
}

/// `id` has an entry.
pub open spec fn listed(es: Seq<(Seq<char>, nat)>, id: Seq<char>) -> bool {
    exists|i: int| 0 <= i < es.len() && (#[trigger] es[i]).0 == id
}

proof fn lemma_best_push(cs: Seq<CandidateView>, c: CandidateView, id: Seq<char>)
    ensures
        best_confidence(cs.push(c), id) == if cand_key(c) == id && c.confidence > best_confidence(cs, id) {
            c.confidence
        } else {
            best_confidence(cs, id)
        },
{
    assert(cs.push(c).drop_last() =~= cs);
}

proof fn lemma_best_absent(cs: Seq<CandidateView>, id: Seq<char>)
    requires
        !names_entity(cs, id),
    ensures
        best_confidence(cs, id) == 0,
    decreases cs.len(),
{
    if cs.len() > 0 {
        assert(!names_entity(cs.drop_last(), id)) by {
            if names_entity(cs.drop_last(), id) {
                let i = choose|i: int| 0 <= i < cs.drop_last().len() && cand_key(#[trigger] cs.drop_last()[i]) == id;
                assert(cs[i] == cs.drop_last()[i]);
            }
        }
        assert(cand_key(cs[cs.len() - 1]) != id);
        lemma_best_absent(cs.drop_last(), id);
    }
}

fn find_entity(es: &Vec<ChunkEntity>, id: &str) -> (r: Option<usize>)
    ensures
        match r {
            Some(i) => i < es@.len() && es@[i as int].id@ == id@,
            None => !listed(entity_views(es@), id@),
        },
{
    let mut i: usize = 0;
    while i < es.len()
        invariant
            i <= es@.len(),
            forall|j: int| 0 <= j < i ==> (#[trigger] es@[j]).id@ != id@,
        decreases es@.len() - i,
    {
        if chars_equal_str(chars_of(es[i].id.as_str()).as_slice(), id) {
            return Some(i);
        }
        i = i + 1;
    }
    proof {
        if listed(entity_views(es@), id@) {
            let j = choose|j: int| 0 <= j < entity_views(es@).len() && (#[trigger] entity_views(es@)[j]).0 == id@;
            assert(es@[j].id@ == id@);
        }
    }
    None
}

/// The entities of a chunk's first `MAX_ENTITIES_PER_CHUNK` candidates,
/// one per id in id order, each with its best confidence.
pub fn chunk_entities(cands: &Vec<EntityCandidate>) -> (r: Vec<ChunkEntity>)
    ensures
        entities_of(
            cand_views(cands@).take(if cands@.len() < MAX_ENTITIES_PER_CHUNK { cands@.len() as int } else { MAX_ENTITIES_PER_CHUNK as int }),
            entity_views(r@),
        ),
{
    let n: usize = if cands.len() < MAX_ENTITIES_PER_CHUNK { cands.len() } else { MAX_ENTITIES_PER_CHUNK };
    let ghost cs = cand_views(cands@);
    let mut es: Vec<ChunkEntity> = Vec::new();
    let mut t: usize = 0;
    while t < n
        invariant
            t <= n <= cands@.len(),
            cs == cand_views(cands@),
            forall|i: int, j: int| 0 <= i < j < es@.len() ==> lex_lt((#[trigger] es@[i]).id@, (#[trigger] es@[j]).id@),
            forall|e: (Seq<char>, nat)| #[trigger] entity_views(es@).contains(e) ==> names_entity(cs.take(t as int), e.0)
                && e.1 == best_confidence(cs.take(t as int), e.0),
            forall|k: int| 0 <= k < t ==> listed(entity_views(es@), cand_key(#[trigger] cs[k])),
        decreases n - t,
    {
        let c = &cands[t];
        let id = entity_id(c.entity_type.as_str(), c.canonical_name.as_str());
        let ghost cv = cs[t as int];
        proof {
            assert(cv == cand_view(*c));
            assert(cs.take(t + 1) =~= cs.take(t as int).push(cv));
            assert(id@ == cand_key(cv));
        }
        let ghost before = entity_views(es@);
        match find_entity(&es, id.as_str()) {
            Some(i) => {
                proof {
                    assert(before.contains(before[i as int]));
                }
                if c.confidence > es[i].confidence {
                    let conf = c.confidence;
                    es.set(i, ChunkEntity { id, confidence: conf });
                }
                proof {
                    let after = entity_views(es@);
                    assert forall|a: int, b: int| 0 <= a < b < es@.len() implies lex_lt((#[trigger] es@[a]).id@, (#[trigger] es@[b]).id@) by {
                        assert(lex_lt(before[a].0, before[b].0));
                    }
                    assert forall|e: (Seq<char>, nat)| #[trigger] after.contains(e) implies names_entity(cs.take(t + 1), e.0)
                        && e.1 == best_confidence(cs.take(t + 1), e.0) by {
                        let x = choose|x: int| 0 <= x < after.len() && after[x] == e;
                        lemma_best_push(cs.take(t as int), cv, e.0);
                        assert(before.contains(before[x]));
                        assert(names_entity(cs.take(t as int), before[x].0));
                        let w = choose|w: int| 0 <= w < cs.take(t as int).len() && cand_key(#[trigger] cs.take(t as int)[w]) == before[x].0;
                        assert(cs.take(t + 1)[w] == cs.take(t as int)[w]);
                        if x != i && before[x].0 == id@ {
                            if x < i {
                                assert(lex_lt(before[x].0, before[i as int].0));
                            } else {
                                assert(lex_lt(before[i as int].0, before[x].0));
                            }
                            lemma_lex_irreflexive(id@);
                        }
                    }
                    assert forall|k: int| 0 <= k < t + 1 implies listed(after, cand_key(#[trigger] cs[k])) by {
                        if k == t {
                            assert(after[i as int].0 == id@);
                        } else {
                            let x = choose|x: int| 0 <= x < before.len() && (#[trigger] before[x]).0 == cand_key(cs[k]);
                            assert(after[x].0 == before[x].0);
                        }
                    }
                }
            },
            None => {
                proof {
                    assert(!names_entity(cs.take(t as int), id@)) by {
                        if names_entity(cs.take(t as int), id@) {
                            let w = choose|w: int| 0 <= w < cs.take(t as int).len() && cand_key(#[trigger] cs.take(t as int)[w]) == id@;
                            assert(cs[w] == cs.take(t as int)[w]);
                            assert(listed(before, cand_key(cs[w])));
                        }
                    }
                    lemma_best_absent(cs.take(t as int), id@);
                    lemma_best_push(cs.take(t as int), cv, id@);
                }
                let idc = chars_of(id.as_str());
                let mut p: usize = 0;
                while p < es.len() && chars_lt(chars_of(es[p].id.as_str()).as_slice(), idc.as_slice())
                    invariant
                        p <= es@.len(),
                        idc@ == id@,
                        before == entity_views(es@),
                        forall|x: int| 0 <= x < p ==> lex_lt((#[trigger] before[x]).0, id@),
                    decreases es@.len() - p,
                {
                    p = p + 1;
                }
                proof {
                    if p < before.len() {
                        assert(before.contains(before[p as int]));
                        assert(before[p as int].0 != id@);
                        crate::text::lemma_lex_total(before[p as int].0, id@);
                        assert forall|x: int| p <= x < before.len() implies lex_lt(id@, (#[trigger] before[x]).0) by {
                            if x > p {
                                crate::text::lemma_lex_transitive(id@, before[p as int].0, before[x].0);
                            }
                        }
                    }
                }
                let conf = c.confidence;
                es.insert(p, ChunkEntity { id, confidence: conf });
                proof {
                    let after = entity_views(es@);
                    let e_new = (id@, conf as nat);
                    assert(after =~= before.insert(p as int, e_new));
                    assert forall|a: int, b: int| 0 <= a < b < es@.len() implies lex_lt((#[trigger] es@[a]).id@, (#[trigger] es@[b]).id@) by {
                        assert(es@[a].id@ == after[a].0);
                        assert(es@[b].id@ == after[b].0);
                        if a < p && b > p {
                            crate::text::lemma_lex_transitive(before[a].0, id@, before[b - 1].0);
                        } else if a > p {
                            assert(lex_lt(before[a - 1].0, before[b - 1].0));
                        } else if b < p {
                            assert(lex_lt(before[a].0, before[b].0));
                        }
                    }
                    assert forall|e: (Seq<char>, nat)| #[trigger] after.contains(e) implies names_entity(cs.take(t + 1), e.0)
                        && e.1 == best_confidence(cs.take(t + 1), e.0) by {
                        let x = choose|x: int| 0 <= x < after.len() && after[x] == e;
                        lemma_best_push(cs.take(t as int), cv, e.0);
                        if x == p {
                            assert(cs.take(t + 1)[t as int] == cv);
                        } else {
                            let y = if x < p { x } else { x - 1 };
                            assert(before[y] == e);
                            assert(before.contains(before[y]));
                            let w = choose|w: int| 0 <= w < cs.take(t as int).len() && cand_key(#[trigger] cs.take(t as int)[w]) == e.0;
                            assert(cs.take(t + 1)[w] == cs.take(t as int)[w]);
                            assert(e.0 != id@);
                        }
                    }
                    assert forall|k: int| 0 <= k < t + 1 implies listed(after, cand_key(#[trigger] cs[k])) by {
                        if k == t {
                            assert(after[p as int].0 == id@);
                        } else {
                            let x = choose|x: int| 0 <= x < before.len() && (#[trigger] before[x]).0 == cand_key(cs[k]);
                            if x < p {
                                assert(after[x].0 == before[x].0);
                            } else {
                                assert(after[x + 1].0 == before[x].0);
                            }
                        }
                    }
                }
            },
        }
        t = t + 1;
    }
    proof {
        let ev = entity_views(es@);
        let ct = cs.take(n as int);
        assert forall|i: int, j: int| 0 <= i < j < ev.len() implies lex_lt((#[trigger] ev[i]).0, (#[trigger] ev[j]).0) by {
            assert(lex_lt(es@[i].id@, es@[j].id@));
        }
        assert forall|i: int| 0 <= i < ev.len() implies names_entity(ct, (#[trigger] ev[i]).0) && ev[i].1 == best_confidence(ct, ev[i].0) by {
            assert(ev.contains(ev[i]));
        }
        assert forall|k: int| 0 <= k < ct.len() implies listed(ev, cand_key(#[trigger] ct[k])) by {
            assert(ct[k] == cs[k]);
        }
    }
    es
}

/// A co-occurrence relation between two entities of a chunk.
pub struct ChunkRelation {
    pub id: String,
    pub subject: String,
    pub object: String,
    /// The smaller of the two entities' confidences, in hundredths.
    pub confidence: u32,
}

pub type RelationView = (Seq<char>, Seq<char>, Seq<char>, nat);

pub open spec fn relation_views(v: Seq<ChunkRelation>) -> Seq<RelationView> {
    Seq::new(v.len(), |i: int| (v[i].id@, v[i].subject@, v[i].object@, v[i].confidence as nat))
}

/// The relation of entity `a` (subject) with entity `b` (object).
pub open spec fn relation_of(a: (Seq<char>, nat), b: (Seq<char>, nat)) -> RelationView {
    (relation_key(a.0, b.0), a.0, b.0, if a.1 < b.1 { a.1 } else { b.1 })
}

/// The relations of entity `i` with each later entity.
pub open spec fn relation_row(es: Seq<(Seq<char>, nat)>, i: int) -> Seq<RelationView> {
    Seq::new((es.len() - i - 1) as nat, |k: int| relation_of(es[i], es[i + 1 + k]))
}

/// The relations of every pair of entities from `i` on, in pair order.
pub open spec fn relations_from(es: Seq<(Seq<char>, nat)>, i: int) -> Seq<RelationView>
    decreases es.len() - i,
{
    if i >= es.len() || i < 0 {
        seq![]
    } else {
        relation_row(es, i) + relations_from(es, i + 1)
    }
}

/// The co-occurrence relations of every pair of entities, the earlier as
/// subject, in pair order.
pub fn chunk_relations(entities: &Vec<ChunkEntity>) -> (r: Vec<ChunkRelation>)
    ensures
        relation_views(r@) == relations_from(entity_views(entities@), 0),
{
    let ghost es = entity_views(entities@);
    let mut out: Vec<ChunkRelation> = Vec::new();
    let mut left: usize = 0;
    while left < entities.len()
        invariant
            left <= entities@.len(),
            es == entity_views(entities@),
            relations_from(es, 0) == relation_views(out@) + relations_from(es, left as int),
        decreases entities@.len() - left,
    {
        let ghost start = relation_views(out@);
        let mut right: usize = left + 1;
        while right < entities.len()
            invariant
                left < right <= entities@.len(),
                es == entity_views(entities@),
                relation_views(out@) == start + relation_row(es, left as int).take(right - left - 1),
            decreases entities@.len() - right,
        {
            let a = &entities[left];
            let b = &entities[right];
            let conf = if a.confidence < b.confidence { a.confidence } else { b.confidence };
            let rel = ChunkRelation {
                id: relation_id(a.id.as_str(), b.id.as_str()),
                subject: string_of(chars_of(a.id.as_str()).as_slice()),
                object: string_of(chars_of(b.id.as_str()).as_slice()),
                confidence: conf,
            };
            let ghost before = relation_views(out@);
            out.push(rel);
            proof {
                let row = relation_row(es, left as int);
                assert(row[right - left - 1] == relation_of(es[left as int], es[right as int]));
                assert(row.take(right - left) =~= row.take(right - left - 1).push(row[right - left - 1]));
                assert(relation_views(out@) =~= before.push(relation_of(es[left as int], es[right as int])));
            }
            right = right + 1;
        }
        proof {
            let row = relation_row(es, left as int);
            assert(row.take(row.len() as int) =~= row);
            assert(relations_from(es, left as int) == row + relations_from(es, left + 1));
            assert(relation_views(out@) + relations_from(es, left + 1) =~= start + relations_from(es, left as int));
        }
        left = left + 1;
    }
    assert(relations_from(es, left as int) =~= Seq::<RelationView>::empty());
    assert(relation_views(out@) =~= relations_from(es, 0));
    out
}

} // verus!
