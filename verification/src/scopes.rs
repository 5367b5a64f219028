//! The entity scopes a retrieval expands: the entities its direct hits
//! mention, and their co-occurring neighbours, each with the reason it was
//! reached, in entity-id order.

use vstd::prelude::*;
use crate::sdd_check::strings_contain;
use crate::text::{
    chars_equal, chars_lt, chars_of, lemma_lex_irreflexive, lemma_lex_total, lemma_lex_transitive, lex_lt,
    str_views,
};

verus! {

/// Most entity scopes one search expands.
pub const MAX_ENTITY_SCOPES: usize = 64;

/// How an entity came into scope: mentioned by a direct hit, or related to
/// such an entity.
#[derive(Clone, Copy, Debug, PartialEq, Eq, Structural)]
pub enum ScopeKind {
    Mention,
    Relation,
}

/// An entity in scope and why.
pub struct EntityScope {
    pub entity: String,
    pub reason: String,
    pub kind: ScopeKind,
}

pub type ScopeView = (Seq<char>, Seq<char>, ScopeKind);

pub type NameView = (Seq<char>, Seq<char>);

pub type TripleView = (Seq<char>, Seq<char>, Seq<char>);

pub open spec fn scope_views(v: Seq<EntityScope>) -> Seq<ScopeView> {
    Seq::new(v.len(), |i: int| (v[i].entity@, v[i].reason@, v[i].kind))
}

pub open spec fn name_views(v: Seq<(String, String)>) -> Seq<NameView> {
    Seq::new(v.len(), |i: int| (v[i].0@, v[i].1@))
}

pub open spec fn triple_views(v: Seq<(String, String, String)>) -> Seq<TripleView> {
    Seq::new(v.len(), |i: int| (v[i].0@, v[i].1@, v[i].2@))
}

/// The canonical name of entity `id`: the last name listed for it, or the
/// id itself.
pub open spec fn name_of(names: Seq<NameView>, id: Seq<char>) -> Seq<char>
    decreases names.len(),
{
    if names.len() == 0 {
        id
    } else if names.last().0 == id {
        names.last().1
    } else {
        name_of(names.drop_last(), id)
    }
}

/// Every seed entity, with the reason naming it; the first reason given to
/// an entity stays.
pub open spec fn seed_scopes(names: Seq<NameView>, seeds: Seq<Seq<char>>) -> Map<Seq<char>, (Seq<char>, ScopeKind)>
    decreases seeds.len(),
{
    if seeds.len() == 0 {
        Map::empty()
    } else {
        let m = seed_scopes(names, seeds.drop_last());
        let s = seeds.last();
        if m.dom().contains(s) {
            m
        } else {
            m.insert(s, ("entity-mention: "@ + name_of(names, s), ScopeKind::Mention))
        }
    }
}

/// The entity a relation `(subject, predicate, object)` brings into scope,
/// and why: the side that is not a seed when exactly one side is.
pub open spec fn relation_scope(names: Seq<NameView>, seeds: Seq<Seq<char>>, r: TripleView) -> Option<
    (Seq<char>, Seq<char>),
> {
    let (subject, predicate, object) = r;
    let (seed, other) = if seeds.contains(subject) {
        (subject, object)
    } else {
        (object, subject)
    };
    if !seeds.contains(seed) || seeds.contains(other) {
        None
    } else {
        Some(
            (
                other,
                "candidate relation from "@ + name_of(names, seed) + ": "@ + predicate + " -> "@ + name_of(names, other),
            ),
        )
    }
}

/// The scopes of the seeds, then of the relations in turn; an entity keeps
/// the first reason it was given.
pub open spec fn scope_map(names: Seq<NameView>, seeds: Seq<Seq<char>>, relations: Seq<TripleView>) -> Map<
    Seq<char>,
    (Seq<char>, ScopeKind),
>
    decreases relations.len(),
{
    if relations.len() == 0 {
        seed_scopes(names, seeds)
    } else {
        let m = scope_map(names, seeds, relations.drop_last());
        match relation_scope(names, seeds, relations.last()) {
            Some((other, why)) => if m.dom().contains(other) {
                m
            } else {
                m.insert(other, (why, ScopeKind::Relation))
            },
            None => m,
        }
    }
}

/// Entity ids strictly increase along `v`.
pub open spec fn ids_sorted(v: Seq<ScopeView>) -> bool {
    forall|i: int, j: int| 0 <= i < j < v.len() ==> lex_lt((#[trigger] v[i]).0, (#[trigger] v[j]).0)
}

/// Each entry of `v` is the entry of `m` for its id.
pub open spec fn agrees(v: Seq<ScopeView>, m: Map<Seq<char>, (Seq<char>, ScopeKind)>) -> bool {
    forall|i: int| 0 <= i < v.len() ==> m.dom().contains((#[trigger] v[i]).0) && m[v[i].0] == (v[i].1, v[i].2)
}

/// `v` has an entry for `k`.
pub open spec fn scope_listed(v: Seq<ScopeView>, k: Seq<char>) -> bool {
    exists|i: int| 0 <= i < v.len() && (#[trigger] v[i]).0 == k
}

/// Every id of `m` has an entry in `v`.
pub open spec fn covers(v: Seq<ScopeView>, m: Map<Seq<char>, (Seq<char>, ScopeKind)>) -> bool {
    forall|k: Seq<char>| #[trigger] m.dom().contains(k) ==> scope_listed(v, k)
}

/// The name of entity `id`.
fn lookup_name(names: &Vec<(String, String)>, id: &str) -> (r: String)
    ensures
        r@ == name_of(name_views(names@), id@),
{
    let ghost nv = name_views(names@);
    let key = chars_of(id);
    let mut i: usize = names.len();
    assert(nv.take(i as int) =~= nv);
    while i > 0
        invariant
            i <= names@.len(),
            nv == name_views(names@),
            key@ == id@,
            name_of(nv, id@) == name_of(nv.take(i as int), id@),
        decreases i,
    {
        let ghost t = nv.take(i as int);
        assert(t.drop_last() =~= nv.take(i - 1));
        assert(t.last() == nv[i - 1]);
        let k = chars_of(names[i - 1].0.as_str());
        if chars_equal(k.as_slice(), key.as_slice()) {
            return names[i - 1].1.clone();
        }
        i = i - 1;
    }
    String::from_str(id)
}

/// Adds `(entity, reason, kind)` to the sorted scopes unless `entity` is
/// there already.
fn put_scope(
    out: &mut Vec<EntityScope>,
    entity: &str,
    reason: String,
    kind: ScopeKind,
    Ghost(m): Ghost<Map<Seq<char>, (Seq<char>, ScopeKind)>>,
)
    requires
        ids_sorted(scope_views(old(out)@)),
        agrees(scope_views(old(out)@), m),
        covers(scope_views(old(out)@), m),
    ensures
        m.dom().contains(entity@) ==> final(out)@ == old(out)@,
        !m.dom().contains(entity@) ==> {
            let m2 = m.insert(entity@, (reason@, kind));
            &&& ids_sorted(scope_views(final(out)@))
            &&& agrees(scope_views(final(out)@), m2)
            &&& covers(scope_views(final(out)@), m2)
        },
{
    let ghost v = scope_views(out@);
    let key = chars_of(entity);
    let mut p: usize = 0;
    while p < out.len()
        invariant
            p <= out@.len(),
            v == scope_views(out@),
            key@ == entity@,
            forall|j: int| 0 <= j < p ==> lex_lt((#[trigger] v[j]).0, entity@),
        ensures
            p <= out@.len(),
            v == scope_views(out@),
            forall|j: int| 0 <= j < p ==> lex_lt((#[trigger] v[j]).0, entity@),
            p < out@.len() ==> !lex_lt(v[p as int].0, entity@),
        decreases out@.len() - p,
    {
        let other = chars_of(out[p].entity.as_str());
        assert(v[p as int].0 == out@[p as int].entity@);
        if !chars_lt(other.as_slice(), key.as_slice()) {
            break;
        }
        p = p + 1;
    }
    if p < out.len() {
        let other = chars_of(out[p].entity.as_str());
        if chars_equal(other.as_slice(), key.as_slice()) {
            assert(v[p as int].0 == entity@);
            return;
        }
        proof {
            lemma_lex_total(v[p as int].0, entity@);
        }
    }
    proof {
        if m.dom().contains(entity@) {
            assert(scope_listed(v, entity@));
            let i = choose|i: int| 0 <= i < v.len() && (#[trigger] v[i]).0 == entity@;
            if i < p {
                lemma_lex_irreflexive(entity@);
            } else if i > p {
                assert(lex_lt(v[p as int].0, v[i].0));
            }
            assert(false);
        }
    }
    let ghost x: ScopeView = (entity@, reason@, kind);
    out.insert(p, EntityScope { entity: String::from_str(entity), reason, kind });
    proof {
        let m2 = m.insert(entity@, (x.1, x.2));
        let w = scope_views(out@);
        assert(w =~= v.take(p as int).push(x) + v.skip(p as int));
        assert forall|i: int, j: int| 0 <= i < j < w.len() implies lex_lt((#[trigger] w[i]).0, (#[trigger] w[j]).0) by {
            if j < p {
                assert(w[i] == v[i] && w[j] == v[j]);
            } else if j == p {
                assert(w[i] == v[i]);
            } else if i < p {
                assert(w[i] == v[i] && w[j] == v[j - 1]);
                if j - 1 > p {
                    assert(lex_lt(v[p as int].0, v[j - 1].0));
                }
                lemma_lex_transitive(v[i].0, entity@, v[p as int].0);
                if j - 1 > p {
                    lemma_lex_transitive(v[i].0, v[p as int].0, v[j - 1].0);
                }
            } else if i == p {
                assert(w[j] == v[j - 1]);
                if j - 1 > p {
                    assert(lex_lt(v[p as int].0, v[j - 1].0));
                    lemma_lex_transitive(entity@, v[p as int].0, v[j - 1].0);
                }
            } else {
                assert(w[i] == v[i - 1] && w[j] == v[j - 1]);
            }
        }
        assert forall|i: int| 0 <= i < w.len() implies m2.dom().contains((#[trigger] w[i]).0) && m2[w[i].0] == (
            w[i].1,
            w[i].2,
        ) by {
            if i < p {
                assert(w[i] == v[i]);
                lemma_lex_irreflexive(entity@);
            } else if i > p {
                assert(w[i] == v[i - 1]);
                if i - 1 > p {
                    assert(lex_lt(v[p as int].0, v[i - 1].0));
                    lemma_lex_transitive(entity@, v[p as int].0, v[i - 1].0);
                }
                lemma_lex_irreflexive(entity@);
            }
        }
        assert forall|k: Seq<char>| #[trigger] m2.dom().contains(k) implies scope_listed(w, k) by {
            if k == entity@ {
                assert(w[p as int].0 == k);
            } else {
                assert(m.dom().contains(k));
                assert(scope_listed(v, k));
                let i = choose|i: int| 0 <= i < v.len() && (#[trigger] v[i]).0 == k;
                if i < p {
                    assert(w[i] == v[i]);
                } else {
                    assert(w[i + 1] == v[i]);
                }
            }
        }
    }
}

/// The entities a search expands from its seed entities: the first
/// `MAX_ENTITY_SCOPES` in id order of every seed (reached by mention) and
/// of every entity related to exactly one seed (reached by relation), each
/// with the first reason it was reached by. `names` pairs entity ids with
/// canonical names.
pub fn entity_scopes(
    names: &Vec<(String, String)>,
    seeds: &Vec<String>,
    relations: &Vec<(String, String, String)>,
) -> (r: Vec<EntityScope>)
    ensures
        ids_sorted(scope_views(r@)),
        agrees(scope_views(r@), scope_map(name_views(names@), str_views(seeds@), triple_views(relations@))),
        r@.len() <= MAX_ENTITY_SCOPES,
        forall|k: Seq<char>|
            #[trigger] scope_map(name_views(names@), str_views(seeds@), triple_views(relations@)).dom().contains(k)
                ==> scope_listed(scope_views(r@), k) || (r@.len() == MAX_ENTITY_SCOPES && forall|i: int|
                0 <= i < r@.len() ==> lex_lt((#[trigger] r@[i]).entity@, k)),
{
    let ghost nv = name_views(names@);
    let ghost sv = str_views(seeds@);
    let ghost rv = triple_views(relations@);
    let mut out: Vec<EntityScope> = Vec::new();
    let mut i: usize = 0;
    assert(sv.take(0) =~= Seq::<Seq<char>>::empty());
    while i < seeds.len()
        invariant
            i <= seeds@.len(),
            nv == name_views(names@),
            sv == str_views(seeds@),
            ids_sorted(scope_views(out@)),
            agrees(scope_views(out@), seed_scopes(nv, sv.take(i as int))),
            covers(scope_views(out@), seed_scopes(nv, sv.take(i as int))),
        decreases seeds@.len() - i,
    {
        let ghost m = seed_scopes(nv, sv.take(i as int));
        proof {
            assert(sv.take(i + 1).drop_last() =~= sv.take(i as int));
            assert(sv.take(i + 1).last() == sv[i as int]);
        }
        let seed = seeds[i].as_str();
        let mut reason = String::from_str("entity-mention: ");
        let name = lookup_name(names, seed);
        reason.append(name.as_str());
        put_scope(&mut out, seed, reason, ScopeKind::Mention, Ghost(m));
        i = i + 1;
    }
    assert(sv.take(seeds@.len() as int) =~= sv);
    let mut j: usize = 0;
    assert(rv.take(0) =~= Seq::<TripleView>::empty());
    while j < relations.len()
        invariant
            j <= relations@.len(),
            nv == name_views(names@),
            sv == str_views(seeds@),
            rv == triple_views(relations@),
            ids_sorted(scope_views(out@)),
            agrees(scope_views(out@), scope_map(nv, sv, rv.take(j as int))),
            covers(scope_views(out@), scope_map(nv, sv, rv.take(j as int))),
        decreases relations@.len() - j,
    {
        let ghost m = scope_map(nv, sv, rv.take(j as int));
        proof {
            assert(rv.take(j + 1).drop_last() =~= rv.take(j as int));
            assert(rv.take(j + 1).last() == rv[j as int]);
        }
        let (subject, predicate, object) = (&relations[j].0, &relations[j].1, &relations[j].2);
        let subject_seed = strings_contain(seeds, subject.as_str());
        let (seed, other) = if subject_seed {
            (subject, object)
        } else {
            (object, subject)
        };
        if strings_contain(seeds, seed.as_str()) && !strings_contain(seeds, other.as_str()) {
            let mut reason = String::from_str("candidate relation from ");
            let seed_name = lookup_name(names, seed.as_str());
            reason.append(seed_name.as_str());
            reason.append(": ");
            reason.append(predicate.as_str());
            reason.append(" -> ");
            let other_name = lookup_name(names, other.as_str());
            reason.append(other_name.as_str());
            put_scope(&mut out, other.as_str(), reason, ScopeKind::Relation, Ghost(m));
        }
        j = j + 1;
    }
    assert(rv.take(relations@.len() as int) =~= rv);
    let ghost full = scope_views(out@);
    let ghost m = scope_map(nv, sv, rv);
    out.truncate(MAX_ENTITY_SCOPES);
    proof {
        let w = scope_views(out@);
        assert forall|k: Seq<char>| #[trigger] m.dom().contains(k) implies scope_listed(w, k) || (out@.len()
            == MAX_ENTITY_SCOPES && forall|i: int| 0 <= i < out@.len() ==> lex_lt((#[trigger] out@[i]).entity@, k)) by {
            assert(scope_listed(full, k));
            let i = choose|i: int| 0 <= i < full.len() && (#[trigger] full[i]).0 == k;
            if i < w.len() {
                assert(w[i] == full[i]);
            } else {
                assert forall|a: int| 0 <= a < out@.len() implies lex_lt((#[trigger] out@[a]).entity@, k) by {
                    assert(w[a] == full[a]);
                    assert(lex_lt(full[a].0, full[i].0));
                }
            }
        }
        assert forall|a: int, b: int| 0 <= a < b < w.len() implies lex_lt((#[trigger] w[a]).0, (#[trigger] w[b]).0) by {
            assert(w[a] == full[a] && w[b] == full[b]);
        }
        assert forall|a: int| 0 <= a < w.len() implies m.dom().contains((#[trigger] w[a]).0) && m[w[a].0] == (
            w[a].1,
            w[a].2,
        ) by {
            assert(w[a] == full[a]);
        }
    }
    out
}

} // verus!
