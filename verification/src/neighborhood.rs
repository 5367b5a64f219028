//! The pages around the seed pages of a retrieval: the wiki links between
//! indexed documents, taken in both directions, and every document within
//! a number of links of a seed with its link distance.

use vstd::prelude::*;
use crate::ask::contains_string;
use crate::rag::{canonical_path, page_id};
use crate::text::{chars_equal_str, chars_lt, chars_of, lex_lt, str_views, string_of};

verus! {

/// The id of the last document whose path has page id `key`.
pub open spec fn doc_with_path(docs: Seq<(Seq<char>, Seq<char>)>, key: Seq<char>) -> Option<Seq<char>>
    decreases docs.len(),
{
    if docs.len() == 0 {
        None
    } else if page_id(docs.last().1) == key {
        Some(docs.last().0)
    } else {
        doc_with_path(docs.drop_last(), key)
    }
}

/// The links between two distinct documents, as (source id, target id):
/// each link whose target path names an indexed document.
pub open spec fn page_links(docs: Seq<(Seq<char>, Seq<char>)>, links: Seq<(Seq<char>, Seq<char>)>) -> Seq<(Seq<char>, Seq<char>)>
    decreases links.len(),
{
    if links.len() == 0 {
        seq![]
    } else {
        let rest = page_links(docs, links.drop_last());
        let l = links.last();
        match doc_with_path(docs, page_id(l.1)) {
            Some(t) => if t != l.0 { rest.push((l.0, t)) } else { rest },
            None => rest,
        }
    }
}

pub open spec fn pair_views(v: Seq<(String, String)>) -> Seq<(Seq<char>, Seq<char>)> {
    Seq::new(v.len(), |i: int| (v[i].0@, v[i].1@))
}

/// The links between indexed documents.
pub struct PageGraph {
    /// (source id, target id) of each link, in link order.
    pub links: Vec<(String, String)>,
}

/// A link joins `x` and `y`, in either direction.
pub open spec fn adjacent(edges: Seq<(Seq<char>, Seq<char>)>, x: Seq<char>, y: Seq<char>) -> bool {
    exists|i: int| 0 <= i < edges.len() && ((#[trigger] edges[i]) == (x, y) || edges[i] == (y, x))
}

/// The documents within `d` links of a seed.
pub open spec fn within(edges: Seq<(Seq<char>, Seq<char>)>, seeds: Set<Seq<char>>, d: nat) -> Set<Seq<char>>
    decreases d,
{
    if d == 0 {
        seeds
    } else {
        let w = within(edges, seeds, (d - 1) as nat);
        w.union(Set::new(|y: Seq<char>| exists|x: Seq<char>| w.contains(x) && adjacent(edges, x, y)))
    }
}

pub open spec fn dist_views(v: Seq<(String, usize)>) -> Seq<(Seq<char>, nat)> {
    Seq::new(v.len(), |i: int| (v[i].0@, v[i].1 as nat))
}

/// `y` has an entry in `d`.
pub open spec fn has_id(d: Seq<(Seq<char>, nat)>, y: Seq<char>) -> bool {
    exists|i: int| 0 <= i < d.len() && (#[trigger] d[i]).0 == y
}

/// `d` lists, in id order, each document within `max_depth` links of a
/// seed with the fewest links that reach it.
pub open spec fn neighborhood(
    edges: Seq<(Seq<char>, Seq<char>)>,
    seeds: Set<Seq<char>>,
    max_depth: nat,
    d: Seq<(Seq<char>, nat)>,
) -> bool {
    &&& forall|i: int, j: int| 0 <= i < j < d.len() ==> lex_lt((#[trigger] d[i]).0, (#[trigger] d[j]).0)
    &&& forall|i: int| 0 <= i < d.len() ==> {
        &&& (#[trigger] d[i]).1 <= max_depth
        &&& within(edges, seeds, d[i].1).contains(d[i].0)
        &&& d[i].1 > 0 ==> !within(edges, seeds, (d[i].1 - 1) as nat).contains(d[i].0)
    }
    &&& forall|y: Seq<char>| #[trigger] within(edges, seeds, max_depth).contains(y) ==> has_id(d, y)
}

/// The links between distinct indexed documents. `documents` holds
/// (id, path) rows, `links` (source id, target path) rows.
pub fn build_page_graph(documents: &Vec<(String, String)>, links: &Vec<(String, String)>) -> (g: PageGraph)
    ensures
        pair_views(g.links@) == page_links(pair_views(documents@), pair_views(links@)),
{
    let ghost docs = pair_views(documents@);
    let mut keys: Vec<String> = Vec::new();
    let mut k: usize = 0;
    while k < documents.len()
        invariant
            k <= documents@.len(),
            keys@.len() == k,
            forall|j: int| 0 <= j < k ==> (#[trigger] keys@[j])@ == page_id(documents@[j].1@),
        decreases documents@.len() - k,
    {
        keys.push(canonical_path(documents[k].1.as_str()));
        k = k + 1;
    }
    let mut out: Vec<(String, String)> = Vec::new();
    let mut i: usize = 0;
    while i < links.len()
        invariant
            i <= links@.len(),
            docs == pair_views(documents@),
            keys@.len() == documents@.len(),
            forall|j: int| 0 <= j < keys@.len() ==> (#[trigger] keys@[j])@ == page_id(documents@[j].1@),
            pair_views(out@) == page_links(docs, pair_views(links@).take(i as int)),
        decreases links@.len() - i,
    {
        let key = canonical_path(links[i].1.as_str());
        let found = last_with_key(&keys, key.as_str());
        proof {
            lemma_doc_with_path(docs, keys@, key@, documents@.len() as int);
            assert(docs.take(documents@.len() as int) =~= docs);
            let t = pair_views(links@).take(i + 1);
            assert(t.drop_last() =~= pair_views(links@).take(i as int));
            assert(t.last() == (links@[i as int].0@, links@[i as int].1@));
        }
        match found {
            Some(d) => {
                let target = &documents[d].0;
                if !chars_equal_str(chars_of(target.as_str()).as_slice(), links[i].0.as_str()) {
                    let ghost before = pair_views(out@);
                    out.push((string_of(chars_of(links[i].0.as_str()).as_slice()), string_of(chars_of(target.as_str()).as_slice())));
                    assert(pair_views(out@) =~= before.push((links@[i as int].0@, target@)));
                }
            },
            None => {},
        }
        i = i + 1;
    }
    assert(pair_views(links@).take(links@.len() as int) =~= pair_views(links@));
    PageGraph { links: out }
}

/// The last index whose key is `key`.
fn last_with_key(keys: &Vec<String>, key: &str) -> (r: Option<usize>)
    ensures
        match r {
            Some(d) => d < keys@.len() && keys@[d as int]@ == key@ && forall|j: int| d < j < keys@.len() ==> (#[trigger] keys@[j])@ != key@,
            None => forall|j: int| 0 <= j < keys@.len() ==> (#[trigger] keys@[j])@ != key@,
        },
{
    let mut j: usize = keys.len();
    while j > 0
        invariant
            j <= keys@.len(),
            forall|m: int| j <= m < keys@.len() ==> (#[trigger] keys@[m])@ != key@,
        decreases j,
    {
        if chars_equal_str(chars_of(keys[j - 1].as_str()).as_slice(), key) {
            return Some(j - 1);
        }
        j = j - 1;
    }
    None
}

proof fn lemma_doc_with_path(docs: Seq<(Seq<char>, Seq<char>)>, keys: Seq<String>, key: Seq<char>, n: int)
    requires
        0 <= n <= docs.len() == keys.len(),
        forall|j: int| 0 <= j < keys.len() ==> (#[trigger] keys[j])@ == page_id(docs[j].1),
    ensures
        (forall|j: int| 0 <= j < n ==> (#[trigger] keys[j])@ != key) ==> doc_with_path(docs.take(n), key) is None,
        forall|d: int|
            0 <= d < n && (#[trigger] keys[d])@ == key && (forall|m: int| d < m < n ==> (#[trigger] keys[m])@ != key)
                ==> doc_with_path(docs.take(n), key) == Some(docs[d].0),
    decreases n,
{
    if n > 0 {
        lemma_doc_with_path(docs, keys, key, n - 1);
        assert(docs.take(n).drop_last() =~= docs.take(n - 1));
        assert(docs.take(n).last() == docs[n - 1]);
        assert(keys[n - 1]@ == page_id(docs[n - 1].1));
    }
}

/// The seed documents as a set.
pub open spec fn seed_set(seeds: Seq<Seq<char>>) -> Set<Seq<char>> {
    Set::new(|x: Seq<char>| seeds.contains(x))
}

/// Some link among the first `k` joins a document of `from` to `y`.
pub open spec fn reached_by(edges: Seq<(Seq<char>, Seq<char>)>, from: Seq<Seq<char>>, k: int, y: Seq<char>) -> bool {
    exists|j: int| 0 <= j < k && ((from.contains((#[trigger] edges[j]).0) && edges[j].1 == y) || (from.contains(edges[j].1) && edges[j].0 == y))
}

/// An entry whose distance is the fewest links from a seed.
pub open spec fn entry_ok(edges: Seq<(Seq<char>, Seq<char>)>, seeds: Set<Seq<char>>, e: (Seq<char>, nat)) -> bool {
    &&& within(edges, seeds, e.1).contains(e.0)
    &&& e.1 > 0 ==> !within(edges, seeds, (e.1 - 1) as nat).contains(e.0)
}

pub open spec fn sorted_ids(d: Seq<(Seq<char>, nat)>) -> bool {
    forall|i: int, j: int| 0 <= i < j < d.len() ==> lex_lt((#[trigger] d[i]).0, (#[trigger] d[j]).0)
}

proof fn lemma_within_grows(edges: Seq<(Seq<char>, Seq<char>)>, seeds: Set<Seq<char>>, a: nat, b: nat, y: Seq<char>)
    requires
        a <= b,
        within(edges, seeds, a).contains(y),
    ensures
        within(edges, seeds, b).contains(y),
    decreases b - a,
{
    if a < b {
        lemma_within_grows(edges, seeds, a, (b - 1) as nat, y);
    }
}

/// A level adds exactly the neighbours of the documents first reached at
/// the level before.
proof fn lemma_next_level(edges: Seq<(Seq<char>, Seq<char>)>, seeds: Set<Seq<char>>, l: nat, y: Seq<char>)
    ensures
        within(edges, seeds, l + 1).contains(y) <==> (within(edges, seeds, l).contains(y) || exists|x: Seq<char>|
            #![trigger adjacent(edges, x, y)]
            within(edges, seeds, l).contains(x) && (l > 0 ==> !within(edges, seeds, (l - 1) as nat).contains(x))
                && adjacent(edges, x, y)),
{
    let w = within(edges, seeds, l);
    if within(edges, seeds, l + 1).contains(y) && !w.contains(y) {
        let x = choose|x: Seq<char>| w.contains(x) && adjacent(edges, x, y);
        if l > 0 && within(edges, seeds, (l - 1) as nat).contains(x) {
            assert(within(edges, seeds, l).contains(y));
        }
    }
}

/// Once a level adds nothing, no later level does.
proof fn lemma_stable(edges: Seq<(Seq<char>, Seq<char>)>, seeds: Set<Seq<char>>, l: nat, m: nat)
    requires
        l <= m,
        within(edges, seeds, l + 1) == within(edges, seeds, l),
    ensures
        within(edges, seeds, m) == within(edges, seeds, l),
    decreases m - l,
{
    if l < m {
        lemma_stable(edges, seeds, l, (m - 1) as nat);
        assert(within(edges, seeds, m) =~= within(edges, seeds, (m - 1) as nat).union(
            Set::new(|y: Seq<char>| exists|x: Seq<char>| within(edges, seeds, (m - 1) as nat).contains(x) && adjacent(edges, x, y)),
        ));
        assert(within(edges, seeds, l + 1) =~= within(edges, seeds, l).union(
            Set::new(|y: Seq<char>| exists|x: Seq<char>| within(edges, seeds, l).contains(x) && adjacent(edges, x, y)),
        ));
        assert(within(edges, seeds, m) =~= within(edges, seeds, l));
    }
}

/// Whether `y` has an entry.
fn dist_has(dist: &Vec<(String, usize)>, y: &str) -> (r: bool)
    ensures
        r == has_id(dist_views(dist@), y@),
{
    let mut i: usize = 0;
    while i < dist.len()
        invariant
            i <= dist@.len(),
            forall|j: int| 0 <= j < i ==> (#[trigger] dist@[j]).0@ != y@,
        decreases dist@.len() - i,
    {
        if chars_equal_str(chars_of(dist[i].0.as_str()).as_slice(), y) {
            assert(dist_views(dist@)[i as int].0 == y@);
            return true;
        }
        i = i + 1;
    }
    proof {
        if has_id(dist_views(dist@), y@) {
            let j = choose|j: int| 0 <= j < dist_views(dist@).len() && (#[trigger] dist_views(dist@)[j]).0 == y@;
            assert(dist@[j].0@ == y@);
        }
    }
    false
}

/// Inserts a new entry in id order.
fn dist_insert(dist: &mut Vec<(String, usize)>, y: String, d: usize)
    requires
        sorted_ids(dist_views(old(dist)@)),
        !has_id(dist_views(old(dist)@), y@),
    ensures
        sorted_ids(dist_views(final(dist)@)),
        forall|z: Seq<char>| has_id(dist_views(final(dist)@), z) <==> (has_id(dist_views(old(dist)@), z) || z == y@),
        forall|e: (Seq<char>, nat)| dist_views(final(dist)@).contains(e) <==> (dist_views(old(dist)@).contains(e) || e == (y@, d as nat)),
{
    let ghost before = dist_views(dist@);
    let yc = chars_of(y.as_str());
    let mut p: usize = 0;
    while p < dist.len() && chars_lt(chars_of(dist[p].0.as_str()).as_slice(), yc.as_slice())
        invariant
            p <= dist@.len(),
            before == dist_views(dist@),
            yc@ == y@,
            forall|i: int| 0 <= i < p ==> lex_lt((#[trigger] before[i]).0, y@),
        decreases dist@.len() - p,
    {
        p = p + 1;
    }
    proof {
        if p < before.len() {
            assert(before[p as int].0 != y@);
            crate::text::lemma_lex_total(before[p as int].0, y@);
            assert forall|i: int| p <= i < before.len() implies lex_lt(y@, (#[trigger] before[i]).0) by {
                if i > p {
                    crate::text::lemma_lex_transitive(y@, before[p as int].0, before[i].0);
                }
            }
        }
    }
    dist.insert(p, (y, d));
    proof {
        let after = dist_views(dist@);
        let e = (y@, d as nat);
        assert(after =~= before.insert(p as int, e));
        assert forall|i: int, j: int| 0 <= i < j < after.len() implies lex_lt((#[trigger] after[i]).0, (#[trigger] after[j]).0) by {
            if j < p {
            } else if i < p && j == p {
            } else if i < p {
                crate::text::lemma_lex_transitive(before[i].0, y@, before[j - 1].0);
            } else if i == p {
            } else {
            }
        }
        assert forall|z: Seq<char>| has_id(after, z) <==> (has_id(before, z) || z == y@) by {
            if has_id(after, z) {
                let i = choose|i: int| 0 <= i < after.len() && (#[trigger] after[i]).0 == z;
                if i > p {
                    assert(before[i - 1].0 == z);
                } else if i < p {
                    assert(before[i].0 == z);
                }
            }
            if has_id(before, z) {
                let i = choose|i: int| 0 <= i < before.len() && (#[trigger] before[i]).0 == z;
                if i >= p {
                    assert(after[i + 1].0 == z);
                } else {
                    assert(after[i].0 == z);
                }
            }
            if z == y@ {
                assert(after[p as int].0 == z);
            }
        }
        assert forall|f: (Seq<char>, nat)| after.contains(f) <==> (before.contains(f) || f == e) by {
            if after.contains(f) {
                let i = choose|i: int| 0 <= i < after.len() && after[i] == f;
                if i > p {
                    assert(before[i - 1] == f);
                } else if i < p {
                    assert(before[i] == f);
                }
            }
            if before.contains(f) {
                let i = choose|i: int| 0 <= i < before.len() && before[i] == f;
                if i >= p {
                    assert(after[i + 1] == f);
                } else {
                    assert(after[i] == f);
                }
            }
            if f == e {
                assert(after[p as int] == f);
            }
        }
    }
}

/// Every document within `max_depth` links of a seed, in either
/// direction, with its link distance, in id order.
pub fn page_neighborhood(graph: &PageGraph, seeds: &Vec<String>, max_depth: usize) -> (r: Vec<(String, usize)>)
    ensures
        neighborhood(pair_views(graph.links@), seed_set(str_views(seeds@)), max_depth as nat, dist_views(r@)),
{
    let ghost edges = pair_views(graph.links@);
    let ghost ss = seed_set(str_views(seeds@));
    let mut dist: Vec<(String, usize)> = Vec::new();
    let mut frontier: Vec<String> = Vec::new();
    let mut i: usize = 0;
    while i < seeds.len()
        invariant
            i <= seeds@.len(),
            ss == seed_set(str_views(seeds@)),
            sorted_ids(dist_views(dist@)),
            forall|y: Seq<char>| #[trigger] has_id(dist_views(dist@), y) <==> str_views(seeds@).take(i as int).contains(y),
            forall|y: Seq<char>| #[trigger] str_views(frontier@).contains(y) <==> str_views(seeds@).take(i as int).contains(y),
            forall|e: (Seq<char>, nat)| #[trigger] dist_views(dist@).contains(e) ==> e.1 == 0 && ss.contains(e.0),
        decreases seeds@.len() - i,
    {
        let ghost sv = str_views(seeds@);
        proof {
            assert(sv.take(i + 1) =~= sv.take(i as int).push(sv[i as int]));
            lemma_push_contains(sv.take(i as int), sv[i as int]);
            assert(ss.contains(sv[i as int]));
        }
        if !dist_has(&dist, seeds[i].as_str()) {
            let ghost fb = str_views(frontier@);
            dist_insert(&mut dist, string_of(chars_of(seeds[i].as_str()).as_slice()), 0);
            frontier.push(string_of(chars_of(seeds[i].as_str()).as_slice()));
            proof {
                assert(str_views(frontier@) =~= fb.push(sv[i as int]));
                lemma_push_contains(fb, sv[i as int]);
            }
        }
        i = i + 1;
    }
    assert(str_views(seeds@).take(seeds@.len() as int) =~= str_views(seeds@));
    let mut level: usize = 0;
    while level < max_depth && frontier.len() > 0
        invariant
            level <= max_depth,
            edges == pair_views(graph.links@),
            sorted_ids(dist_views(dist@)),
            forall|y: Seq<char>| #[trigger] has_id(dist_views(dist@), y) <==> within(edges, ss, level as nat).contains(y),
            forall|y: Seq<char>| #[trigger] str_views(frontier@).contains(y) <==> (within(edges, ss, level as nat).contains(y)
                && (level > 0 ==> !within(edges, ss, (level - 1) as nat).contains(y))),
            forall|e: (Seq<char>, nat)| #[trigger] dist_views(dist@).contains(e) ==> e.1 <= level && entry_ok(edges, ss, e),
        decreases max_depth - level,
    {
        let ghost w = within(edges, ss, level as nat);
        let ghost fs = str_views(frontier@);
        let mut next: Vec<String> = Vec::new();
        let mut k: usize = 0;
        while k < graph.links.len()
            invariant
                k <= graph.links@.len(),
                level < max_depth,
                edges == pair_views(graph.links@),
                w == within(edges, ss, level as nat),
                fs == str_views(frontier@),
                forall|y: Seq<char>| #[trigger] fs.contains(y) <==> (w.contains(y) && (level > 0 ==> !within(edges, ss, (level - 1) as nat).contains(y))),
                sorted_ids(dist_views(dist@)),
                forall|y: Seq<char>| #[trigger] has_id(dist_views(dist@), y) <==> (w.contains(y) || reached_by(edges, fs, k as int, y)),
                forall|y: Seq<char>| #[trigger] str_views(next@).contains(y) <==> (!w.contains(y) && reached_by(edges, fs, k as int, y)),
                forall|e: (Seq<char>, nat)| #[trigger] dist_views(dist@).contains(e) ==> e.1 <= level + 1 && entry_ok(edges, ss, e),
            decreases graph.links@.len() - k,
        {
            let a = &graph.links[k].0;
            let b = &graph.links[k].1;
            proof {
                assert(edges[k as int] == (a@, b@));
                assert forall|y: Seq<char>| reached_by(edges, fs, k + 1, y) <==> (reached_by(edges, fs, k as int, y)
                    || (fs.contains(a@) && y == b@) || (fs.contains(b@) && y == a@)) by {
                    if reached_by(edges, fs, k + 1, y) {
                        let j = choose|j: int| 0 <= j < k + 1 && ((fs.contains((#[trigger] edges[j]).0) && edges[j].1 == y) || (fs.contains(edges[j].1) && edges[j].0 == y));
                        if j < k {
                            assert(reached_by(edges, fs, k as int, y));
                        }
                    }
                    if reached_by(edges, fs, k as int, y) {
                        let j = choose|j: int| 0 <= j < k && ((fs.contains((#[trigger] edges[j]).0) && edges[j].1 == y) || (fs.contains(edges[j].1) && edges[j].0 == y));
                        assert(reached_by(edges, fs, k + 1, y));
                    }
                    if (fs.contains(a@) && y == b@) || (fs.contains(b@) && y == a@) {
                        assert(reached_by(edges, fs, k + 1, y));
                    }
                }
            }
            if contains_string(&frontier, a.as_str()) && !dist_has(&dist, b.as_str()) {
                proof {
                    assert(adjacent(edges, a@, b@));
                    assert(within(edges, ss, (level + 1) as nat).contains(b@));
                }
                let ghost nb = str_views(next@);
                dist_insert(&mut dist, string_of(chars_of(b.as_str()).as_slice()), level + 1);
                next.push(string_of(chars_of(b.as_str()).as_slice()));
                proof {
                    assert(str_views(next@) =~= nb.push(b@));
                    lemma_push_contains(nb, b@);
                }
            }
            if contains_string(&frontier, b.as_str()) && !dist_has(&dist, a.as_str()) {
                proof {
                    assert(adjacent(edges, b@, a@));
                    assert(within(edges, ss, (level + 1) as nat).contains(a@));
                }
                let ghost nb = str_views(next@);
                dist_insert(&mut dist, string_of(chars_of(a.as_str()).as_slice()), level + 1);
                next.push(string_of(chars_of(a.as_str()).as_slice()));
                proof {
                    assert(str_views(next@) =~= nb.push(a@));
                    lemma_push_contains(nb, a@);
                }
            }
            k = k + 1;
        }
        proof {
            assert forall|y: Seq<char>| reached_by(edges, fs, graph.links@.len() as int, y) <==> exists|x: Seq<char>|
                #![trigger adjacent(edges, x, y)]
                w.contains(x) && (level > 0 ==> !within(edges, ss, (level - 1) as nat).contains(x)) && adjacent(edges, x, y) by {
                if reached_by(edges, fs, graph.links@.len() as int, y) {
                    let j = choose|j: int| 0 <= j < graph.links@.len() && ((fs.contains((#[trigger] edges[j]).0) && edges[j].1 == y) || (fs.contains(edges[j].1) && edges[j].0 == y));
                    if fs.contains(edges[j].0) && edges[j].1 == y {
                        assert(adjacent(edges, edges[j].0, y));
                    } else {
                        assert(adjacent(edges, edges[j].1, y));
                    }
                }
                if exists|x: Seq<char>| #![trigger adjacent(edges, x, y)] w.contains(x) && (level > 0 ==> !within(edges, ss, (level - 1) as nat).contains(x)) && adjacent(edges, x, y) {
                    let x = choose|x: Seq<char>| #![trigger adjacent(edges, x, y)] w.contains(x) && (level > 0 ==> !within(edges, ss, (level - 1) as nat).contains(x)) && adjacent(edges, x, y);
                    let j = choose|j: int| 0 <= j < edges.len() && ((#[trigger] edges[j]) == (x, y) || edges[j] == (y, x));
                    assert(fs.contains(x));
                    assert(reached_by(edges, fs, graph.links@.len() as int, y));
                }
            }
            assert forall|y: Seq<char>| within(edges, ss, (level + 1) as nat).contains(y) <==> (w.contains(y)
                || reached_by(edges, fs, graph.links@.len() as int, y)) by {
                lemma_next_level(edges, ss, level as nat, y);
            }
            assert forall|e: (Seq<char>, nat)| #[trigger] dist_views(dist@).contains(e) implies e.1 <= level + 1 by {}
        }
        frontier = next;
        level = level + 1;
    }
    proof {
        let mdp = max_depth as nat;
        if level < max_depth {
            assert(frontier@.len() == 0);
            assert forall|y: Seq<char>| within(edges, ss, (level + 1) as nat).contains(y) <==> within(edges, ss, level as nat).contains(y) by {
                lemma_next_level(edges, ss, level as nat, y);
                if exists|x: Seq<char>| #![trigger adjacent(edges, x, y)] within(edges, ss, level as nat).contains(x)
                    && (level > 0 ==> !within(edges, ss, (level - 1) as nat).contains(x)) && adjacent(edges, x, y) {
                    let x = choose|x: Seq<char>| #![trigger adjacent(edges, x, y)] within(edges, ss, level as nat).contains(x)
                        && (level > 0 ==> !within(edges, ss, (level - 1) as nat).contains(x)) && adjacent(edges, x, y);
                    assert(str_views(frontier@).contains(x));
                }
            }
            assert(within(edges, ss, (level + 1) as nat) =~= within(edges, ss, level as nat));
            lemma_stable(edges, ss, level as nat, mdp);
        }
        let d = dist_views(dist@);
        assert forall|i: int| 0 <= i < d.len() implies {
            &&& (#[trigger] d[i]).1 <= mdp
            &&& within(edges, ss, d[i].1).contains(d[i].0)
            &&& d[i].1 > 0 ==> !within(edges, ss, (d[i].1 - 1) as nat).contains(d[i].0)
        } by {
            assert(d.contains(d[i]));
        }
        assert forall|y: Seq<char>| #[trigger] within(edges, ss, mdp).contains(y) implies has_id(d, y) by {}
    }
    dist
}

proof fn lemma_push_contains(s: Seq<Seq<char>>, x: Seq<char>)
    ensures
        forall|y: Seq<char>| #[trigger] s.push(x).contains(y) <==> (s.contains(y) || y == x),
{
    assert forall|y: Seq<char>| #[trigger] s.push(x).contains(y) <==> (s.contains(y) || y == x) by {
        if s.push(x).contains(y) {
            let k = choose|k: int| 0 <= k < s.push(x).len() && s.push(x)[k] == y;
            if k < s.len() {
                assert(s[k] == y);
            }
        }
        if s.contains(y) {
            let k = choose|k: int| 0 <= k < s.len() && s[k] == y;
            assert(s.push(x)[k] == y);
        }
        if y == x {
            assert(s.push(x)[s.len() as int] == y);
        }
    }
}

} // verus!
