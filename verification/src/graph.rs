//! The explicit wiki-link graph: pages are nodes, wiki-links are edges.
//!
//! The graph is built from the rows of the index (every page's path and
//! title, every link's source path, target path and text). Queries resolve
//! a page by path or title, count links, walk neighbours breadth-first and
//! find a shortest directed path.

use vstd::prelude::*;
use crate::fmt::{decimal, push_decimal};
use crate::markdown::{drop_md, skip_dot_slashes, strip_dot_slashes, strip_md_suffixes, to_forward_slashes};
use crate::shared::forward_slashes;
use crate::unicode::{to_lowercase, unicode_lowercase};
use crate::text::{
    chars_equal, chars_lt, chars_of, lex_lt, lemma_lex_asymmetric, lemma_lex_irreflexive,
    lemma_lex_total, lemma_lex_transitive, push_char, push_chars, slice_chars, string_of,
    strictly_sorted, trim, trim_chars, join,
};

verus! {

/// Deepest traversal a query may ask for.
pub const MAX_TRAVERSAL_DEPTH: usize = 8;

/// Which links a neighbourhood walk follows.
#[derive(Clone, Copy, PartialEq, Eq, Structural, Debug)]
pub enum GraphDirection {
    Incoming,
    Outgoing,
    Both,
}

/// Why a graph query failed.
pub enum GraphError {
    Invalid(String),
    Database(String),
}

impl GraphError {
    /// The error's message.
    pub fn message(&self) -> (r: String)
        ensures
            r@ == match self {
                GraphError::Invalid(m) => m@,
                GraphError::Database(m) => m@,
            },
    {
        match self {
            GraphError::Invalid(m) => m.clone(),
            GraphError::Database(m) => m.clone(),
        }
    }
}

/// A page: its canonical id, its path and its title.
pub struct GraphNode {
    pub id: String,
    pub path: String,
    pub title: String,
}

/// A wiki-link from one page id to a target id; `resolved` tells whether
/// the target is a page.
pub struct GraphEdge {
    pub source: String,
    pub target: String,
    pub link_text: Option<String>,
    pub resolved: bool,
}

/// All pages, ordered by id, and all links, in index order.
pub struct GraphExport {
    pub nodes: Vec<GraphNode>,
    pub edges: Vec<GraphEdge>,
}

/// Link and entity counts of an index.
pub struct GraphStats {
    pub nodes: usize,
    pub links: usize,
    pub unique_edges: usize,
    pub resolved_links: usize,
    pub dangling_links: usize,
    pub entity_nodes: usize,
    pub entity_mentions: usize,
    pub entity_relations: usize,
}

/// The value of an optional text.
pub open spec fn opt_view(o: Option<String>) -> Option<Seq<char>> {
    match o {
        Some(s) => Some(s@),
        None => None,
    }
}

/// A node as (id, path, title).
pub open spec fn node_view(n: GraphNode) -> (Seq<char>, Seq<char>, Seq<char>) {
    (n.id@, n.path@, n.title@)
}

/// An edge as (source, target, link text, resolved).
pub open spec fn edge_view(e: GraphEdge) -> (Seq<char>, Seq<char>, Option<Seq<char>>, bool) {
    (e.source@, e.target@, opt_view(e.link_text), e.resolved)
}

pub open spec fn node_ids(nodes: Seq<GraphNode>) -> Seq<Seq<char>> {
    Seq::new(nodes.len(), |i: int| nodes[i].id@)
}

// ---------------------------------------------------------------------------
// Canonical page ids
// ---------------------------------------------------------------------------

/// Index of the first `#`, or the length.
pub open spec fn hash_at(s: Seq<char>) -> nat
    decreases s.len(),
{
    if s.len() == 0 {
        0
    } else if s[0] == '#' {
        0
    } else {
        1 + hash_at(s.drop_first())
    }
}

/// The canonical id of a page path or link target: trimmed, forward
/// slashes, cut at the first `#`, no leading `./`, no trailing `.md`.
pub open spec fn canonical(value: Seq<char>) -> Seq<char> {
    let f = forward_slashes(trim(value));
    drop_md(skip_dot_slashes(f.take(hash_at(f) as int)))
}

proof fn lemma_hash_at(s: Seq<char>, k: int)
    requires
        0 <= k <= s.len(),
        forall|j: int| 0 <= j < k ==> s[j] != '#',
        k == s.len() || s[k] == '#',
    ensures
        hash_at(s) == k,
    decreases k,
{
    if k > 0 {
        lemma_hash_at(s.drop_first(), k - 1);
    }
}

/// The canonical id of a path or link target.
pub fn canonical_path(value: &str) -> (r: String)
    ensures
        r@ == canonical(value@),
{
    let t = trim_chars(chars_of(value).as_slice());
    let f = to_forward_slashes(t.as_slice());
    let mut k: usize = 0;
    while k < f.len() && f[k] != '#'
        invariant
            k <= f@.len(),
            forall|j: int| 0 <= j < k ==> f@[j] != '#',
        decreases f@.len() - k,
    {
        k = k + 1;
    }
    proof {
        lemma_hash_at(f@, k as int);
    }
    let head = slice_chars(f.as_slice(), 0, k);
    assert(head@ =~= f@.take(k as int));
    let s = strip_dot_slashes(head.as_slice());
    let d = strip_md_suffixes(s.as_slice());
    string_of(d.as_slice())
}

/// `s` with `\` and `"` escaped by a backslash, for a DOT string.
pub open spec fn dot_escaped(s: Seq<char>) -> Seq<char>
    decreases s.len(),
{
    if s.len() == 0 {
        seq![]
    } else {
        let c = s.last();
        dot_escaped(s.drop_last()) + if c == '\\' {
            seq!['\\', '\\']
        } else if c == '"' {
            seq!['\\', '"']
        } else {
            seq![c]
        }
    }
}

/// Escapes `\` and `"` for a DOT string.
pub fn escape_dot(value: &str) -> (r: String)
    ensures
        r@ == dot_escaped(value@),
{
    let v = chars_of(value);
    let mut r = String::new();
    let mut i: usize = 0;
    while i < v.len()
        invariant
            i <= v@.len(),
            v@ == value@,
            r@ == dot_escaped(v@.take(i as int)),
        decreases v@.len() - i,
    {
        let c = v[i];
        proof {
            assert(v@.take(i + 1).drop_last() =~= v@.take(i as int));
        }
        if c == '\\' {
            push_char(&mut r, '\\');
            push_char(&mut r, '\\');
        } else if c == '"' {
            push_char(&mut r, '\\');
            push_char(&mut r, '"');
        } else {
            push_char(&mut r, c);
        }
        assert(r@ =~= dot_escaped(v@.take(i + 1)));
        i = i + 1;
    }
    assert(v@.take(v@.len() as int) =~= v@);
    r
}

// ---------------------------------------------------------------------------
// Building the graph
// ---------------------------------------------------------------------------

/// A copy of an optional text.
pub fn clone_opt(o: &Option<String>) -> (r: Option<String>)
    ensures
        opt_view(r) == opt_view(*o),
{
    match o {
        Some(s) => Some(s.clone()),
        None => None,
    }
}

/// The canonical ids of the documents' paths.
pub open spec fn doc_ids(docs: Seq<(String, String)>) -> Seq<Seq<char>> {
    Seq::new(docs.len(), |i: int| canonical(docs[i].0@))
}

/// Index of the last id equal to `k`, or -1.
pub open spec fn last_index_of(ids: Seq<Seq<char>>, k: Seq<char>) -> int
    decreases ids.len(),
{
    if ids.len() == 0 {
        -1
    } else if ids.last() == k {
        ids.len() - 1
    } else {
        last_index_of(ids.drop_last(), k)
    }
}

proof fn lemma_last_index_of(ids: Seq<Seq<char>>, k: Seq<char>)
    ensures
        -1 <= last_index_of(ids, k) < ids.len(),
        last_index_of(ids, k) >= 0 ==> ids[last_index_of(ids, k)] == k,
        last_index_of(ids, k) >= 0 <==> ids.contains(k),
    decreases ids.len(),
{
    if ids.len() > 0 {
        lemma_last_index_of(ids.drop_last(), k);
        if ids.last() != k && ids.contains(k) {
            let j = choose|j: int| 0 <= j < ids.len() && ids[j] == k;
            assert(ids.drop_last()[j] == k);
        }
        if ids.drop_last().contains(k) {
            let j = choose|j: int| 0 <= j < ids.drop_last().len() && ids.drop_last()[j] == k;
            assert(ids[j] == k);
        }
    }
}

/// The nodes that a list of documents gives: one per distinct id, ordered
/// by id, each with the path and title of the last document with that id.
pub open spec fn nodes_from(nodes: Seq<GraphNode>, docs: Seq<(String, String)>) -> bool {
    let ids = doc_ids(docs);
    &&& strictly_sorted(node_ids(nodes))
    &&& forall|k: Seq<char>| node_ids(nodes).contains(k) <==> ids.contains(k)
    &&& forall|i: int| #![trigger nodes[i]] 0 <= i < nodes.len() ==> {
        let j = last_index_of(ids, nodes[i].id@);
        &&& 0 <= j < docs.len()
        &&& nodes[i].path@ == docs[j].0@
        &&& nodes[i].title@ == docs[j].1@
    }
}

/// The edges that a list of link rows gives, resolved against the nodes.
pub open spec fn edges_from(
    edges: Seq<GraphEdge>,
    links: Seq<(String, String, Option<String>)>,
    nodes: Seq<GraphNode>,
) -> bool {
    &&& edges.len() == links.len()
    &&& forall|i: int| #![trigger edges[i]] 0 <= i < edges.len() ==> edge_view(edges[i]) == (
        canonical(links[i].0@),
        canonical(links[i].1@),
        opt_view(links[i].2),
        node_ids(nodes).contains(canonical(links[i].1@)),
    )
}

/// Ids strictly ordered, and each edge resolved exactly when its target is
/// a node.
pub open spec fn graph_wf(nodes: Seq<GraphNode>, edges: Seq<GraphEdge>) -> bool {
    &&& strictly_sorted(node_ids(nodes))
    &&& forall|i: int| #![trigger edges[i]] 0 <= i < edges.len() ==> edges[i].resolved == node_ids(nodes).contains(edges[i].target@)
}

/// Inserts a node into nodes ordered by id, replacing the node with the
/// same id.
fn insert_node(nodes: &mut Vec<GraphNode>, node: GraphNode)
    requires
        strictly_sorted(node_ids(old(nodes)@)),
    ensures
        strictly_sorted(node_ids(final(nodes)@)),
        forall|k: Seq<char>| node_ids(final(nodes)@).contains(k) <==> (node_ids(old(nodes)@).contains(k) || k == node.id@),
        forall|i: int| #![trigger final(nodes)@[i]] 0 <= i < final(nodes)@.len() && final(nodes)@[i].id@ == node.id@ ==> node_view(final(nodes)@[i]) == node_view(node),
        forall|i: int| #![trigger final(nodes)@[i]] 0 <= i < final(nodes)@.len() && final(nodes)@[i].id@ != node.id@ ==> exists|j: int| 0 <= j < old(nodes)@.len() && node_view(old(nodes)@[j]) == node_view(final(nodes)@[i]),
{
    let key = chars_of(node.id.as_str());
    let mut p: usize = 0;
    while p < nodes.len() && chars_lt(chars_of(nodes[p].id.as_str()).as_slice(), key.as_slice())
        invariant
            p <= nodes@.len(),
            key@ == node.id@,
            forall|j: int| 0 <= j < p ==> lex_lt(#[trigger] nodes@[j].id@, key@),
        decreases nodes@.len() - p,
    {
        p = p + 1;
    }
    let ghost old_nodes = nodes@;
    let ghost old_ids = node_ids(nodes@);
    if p < nodes.len() && chars_equal(chars_of(nodes[p].id.as_str()).as_slice(), key.as_slice()) {
        nodes.set(p, node);
        proof {
            assert(node_ids(nodes@) =~= old_ids);
            assert forall|i: int| #![trigger nodes@[i]] 0 <= i < nodes@.len() && nodes@[i].id@ != node.id@ implies exists|j: int| 0 <= j < old_nodes.len() && node_view(old_nodes[j]) == node_view(nodes@[i]) by {
                assert(i != p);
                assert(node_view(old_nodes[i]) == node_view(nodes@[i]));
            }
            assert forall|i: int| #![trigger nodes@[i]] 0 <= i < nodes@.len() && nodes@[i].id@ == node.id@ implies node_view(nodes@[i]) == node_view(node) by {
                if i != p {
                    assert(old_ids[i] == old_ids[p as int]);
                    if i < p {
                        assert(lex_lt(old_ids[i], old_ids[p as int]));
                    } else {
                        assert(lex_lt(old_ids[p as int], old_ids[i]));
                    }
                    lemma_lex_irreflexive(old_ids[i]);
                }
            }
            assert forall|k: Seq<char>| (old_ids.contains(k) || k == node.id@) implies node_ids(nodes@).contains(k) by {
                if k == node.id@ {
                    assert(node_ids(nodes@)[p as int] == k);
                }
            }
        }
        return;
    }
    proof {
        if p < old_nodes.len() {
            lemma_lex_total(old_ids[p as int], key@);
        }
    }
    nodes.insert(p, node);
    proof {
        let nv = node_ids(nodes@);
        assert(nv =~= old_ids.insert(p as int, key@));
        assert forall|i: int, j: int| 0 <= i < j < nv.len() implies lex_lt(#[trigger] nv[i], #[trigger] nv[j]) by {
            if j < p {
                assert(nv[i] == old_ids[i] && nv[j] == old_ids[j]);
            } else if j == p {
                assert(nv[i] == old_ids[i]);
            } else if i == p {
                assert(nv[j] == old_ids[j - 1]);
                if j - 1 > p {
                    lemma_lex_transitive(key@, old_ids[p as int], old_ids[j - 1]);
                }
            } else if i < p {
                assert(nv[i] == old_ids[i] && nv[j] == old_ids[j - 1]);
                if j - 1 >= p {
                    lemma_lex_transitive(old_ids[i], key@, old_ids[p as int]);
                    if j - 1 > p {
                        lemma_lex_transitive(old_ids[i], old_ids[p as int], old_ids[j - 1]);
                    }
                }
            } else {
                assert(nv[i] == old_ids[i - 1] && nv[j] == old_ids[j - 1]);
            }
        }
        assert forall|k: Seq<char>| nv.contains(k) <==> (old_ids.contains(k) || k == node.id@) by {
            if nv.contains(k) {
                let m = choose|m: int| 0 <= m < nv.len() && nv[m] == k;
                if m < p {
                    assert(old_ids[m] == k);
                } else if m > p {
                    assert(old_ids[m - 1] == k);
                }
            }
            if k == node.id@ {
                assert(nv[p as int] == k);
            } else if old_ids.contains(k) {
                let m = choose|m: int| 0 <= m < old_ids.len() && old_ids[m] == k;
                if m < p {
                    assert(nv[m] == k);
                } else {
                    assert(nv[m + 1] == k);
                }
            }
        }
        assert forall|i: int| #![trigger nodes@[i]] 0 <= i < nodes@.len() && nodes@[i].id@ != node.id@ implies exists|j: int| 0 <= j < old_nodes.len() && node_view(old_nodes[j]) == node_view(nodes@[i]) by {
            if i < p {
                assert(node_view(old_nodes[i]) == node_view(nodes@[i]));
            } else {
                assert(i != p);
                assert(node_view(old_nodes[i - 1]) == node_view(nodes@[i]));
            }
        }
        assert forall|i: int| #![trigger nodes@[i]] 0 <= i < nodes@.len() && nodes@[i].id@ == node.id@ implies node_view(nodes@[i]) == node_view(node) by {
            if i < p {
                assert(lex_lt(old_ids[i], key@));
                lemma_lex_irreflexive(key@);
            } else if i > p {
                assert(nv[i] == old_ids[i - 1]);
                assert(lex_lt(nv[p as int], nv[i]));
                lemma_lex_irreflexive(key@);
            }
        }
    }
}

/// The graph of an index: nodes ordered by id, edges in index order.
pub struct Graph {
    nodes: Vec<GraphNode>,
    edges: Vec<GraphEdge>,
}

impl Graph {
    /// The nodes, ordered by id.
    pub closed spec fn node_seq(self) -> Seq<GraphNode> {
        self.nodes@
    }

    /// The edges, in index order.
    pub closed spec fn edge_seq(self) -> Seq<GraphEdge> {
        self.edges@
    }

    #[verifier::type_invariant]
    closed spec fn well_formed(self) -> bool {
        graph_wf(self.nodes@, self.edges@)
    }
}

/// The graph of the given document rows `(path, title)` and link rows
/// `(source path, target path, link text)`: one node per distinct
/// canonical path, the last row winning, and one edge per link row,
/// resolved when its target is a node.
pub fn load_graph(documents: &Vec<(String, String)>, links: &Vec<(String, String, Option<String>)>) -> (g: Graph)
    ensures
        nodes_from(g.node_seq(), documents@),
        edges_from(g.edge_seq(), links@, g.node_seq()),
        graph_wf(g.node_seq(), g.edge_seq()),
{
    let mut nodes: Vec<GraphNode> = Vec::new();
    let mut i: usize = 0;
    proof {
        assert(doc_ids(documents@.take(0)) =~= Seq::<Seq<char>>::empty());
        assert(node_ids(nodes@) =~= Seq::<Seq<char>>::empty());
    }
    while i < documents.len()
        invariant
            i <= documents@.len(),
            nodes_from(nodes@, documents@.take(i as int)),
        decreases documents@.len() - i,
    {
        let path = &documents[i].0;
        let title = &documents[i].1;
        let id = canonical_path(path.as_str());
        let node = GraphNode { id, path: path.clone(), title: title.clone() };
        let ghost old_nodes = nodes@;
        let ghost ids = doc_ids(documents@.take(i as int));
        let ghost ids2 = doc_ids(documents@.take(i + 1));
        insert_node(&mut nodes, node);
        proof {
            let k = node.id@;
            assert(ids2 =~= ids.push(k));
            assert(ids2.drop_last() =~= ids);
            assert forall|kk: Seq<char>| node_ids(nodes@).contains(kk) <==> ids2.contains(kk) by {
                if ids2.contains(kk) && kk != k {
                    let m = choose|m: int| 0 <= m < ids2.len() && ids2[m] == kk;
                    assert(ids[m] == kk);
                }
                if ids.contains(kk) {
                    let m = choose|m: int| 0 <= m < ids.len() && ids[m] == kk;
                    assert(ids2[m] == kk);
                }
                if kk == k {
                    assert(ids2[i as int] == kk);
                }
            }
            assert forall|n: int| #![trigger nodes@[n]] 0 <= n < nodes@.len() implies ({
                let j = last_index_of(ids2, nodes@[n].id@);
                &&& 0 <= j < documents@.take(i + 1).len()
                &&& nodes@[n].path@ == documents@.take(i + 1)[j].0@
                &&& nodes@[n].title@ == documents@.take(i + 1)[j].1@
            }) by {
                if nodes@[n].id@ == k {
                    assert(last_index_of(ids2, k) == i);
                } else {
                    let j0 = choose|j0: int| 0 <= j0 < old_nodes.len() && node_view(old_nodes[j0]) == node_view(nodes@[n]);
                    assert(old_nodes[j0].id@ == nodes@[n].id@);
                    assert(last_index_of(ids2, nodes@[n].id@) == last_index_of(ids, nodes@[n].id@));
                }
            }
        }
        i = i + 1;
    }
    assert(documents@.take(documents@.len() as int) =~= documents@);
    let mut edges: Vec<GraphEdge> = Vec::new();
    let mut e: usize = 0;
    while e < links.len()
        invariant
            e <= links@.len(),
            strictly_sorted(node_ids(nodes@)),
            edges@.len() == e,
            forall|j: int| #![trigger edges@[j]] 0 <= j < e ==> edge_view(edges@[j]) == (
                canonical(links@[j].0@),
                canonical(links@[j].1@),
                opt_view(links@[j].2),
                node_ids(nodes@).contains(canonical(links@[j].1@)),
            ),
        decreases links@.len() - e,
    {
        let source = canonical_path(links[e].0.as_str());
        let target = canonical_path(links[e].1.as_str());
        let resolved = has_node(&nodes, target.as_str());
        let link_text = clone_opt(&links[e].2);
        edges.push(GraphEdge { source, target, link_text, resolved });
        e = e + 1;
    }
    Graph { nodes, edges }
}

/// Whether some node has the id `id`.
fn has_node(nodes: &Vec<GraphNode>, id: &str) -> (r: bool)
    ensures
        r == node_ids(nodes@).contains(id@),
{
    match find_node(nodes, id) {
        Some(p) => {
            assert(node_ids(nodes@)[p as int] == id@);
            true
        },
        None => false,
    }
}

/// Index of the first node with id `k`, or the count.
pub open spec fn first_with_id(nodes: Seq<GraphNode>, k: Seq<char>) -> nat
    decreases nodes.len(),
{
    if nodes.len() == 0 {
        0
    } else if nodes[0].id@ == k {
        0
    } else {
        1 + first_with_id(nodes.drop_first(), k)
    }
}

proof fn lemma_first_with_id(nodes: Seq<GraphNode>, k: Seq<char>, p: int)
    requires
        0 <= p <= nodes.len(),
        forall|j: int| 0 <= j < p ==> nodes[j].id@ != k,
        p == nodes.len() || nodes[p].id@ == k,
    ensures
        first_with_id(nodes, k) == p,
    decreases p,
{
    if p > 0 {
        lemma_first_with_id(nodes.drop_first(), k, p - 1);
    }
}

/// Position of the node with id `id`.
fn find_node(nodes: &Vec<GraphNode>, id: &str) -> (r: Option<usize>)
    ensures
        match r {
            Some(p) => p < nodes@.len() && nodes@[p as int].id@ == id@ && p == first_with_id(nodes@, id@),
            None => !node_ids(nodes@).contains(id@),
        },
{
    let mut p: usize = 0;
    while p < nodes.len()
        invariant
            p <= nodes@.len(),
            forall|j: int| 0 <= j < p ==> nodes@[j].id@ != id@,
        decreases nodes@.len() - p,
    {
        let c = chars_of(nodes[p].id.as_str());
        if crate::text::chars_equal_str(c.as_slice(), id) {
            proof {
                lemma_first_with_id(nodes@, id@, p as int);
            }
            return Some(p);
        }
        p = p + 1;
    }
    proof {
        if node_ids(nodes@).contains(id@) {
            let j = choose|j: int| 0 <= j < node_ids(nodes@).len() && node_ids(nodes@)[j] == id@;
            assert(nodes@[j].id@ == id@);
        }
    }
    None
}

// ---------------------------------------------------------------------------
// Counts and export
// ---------------------------------------------------------------------------

/// Number of distinct elements.
pub open spec fn distinct_count<A>(s: Seq<A>) -> nat
    decreases s.len(),
{
    if s.len() == 0 {
        0
    } else if s.drop_last().contains(s.last()) {
        distinct_count(s.drop_last())
    } else {
        distinct_count(s.drop_last()) + 1
    }
}

/// The (source, target) pair of each edge.
pub open spec fn edge_pairs(edges: Seq<GraphEdge>) -> Seq<(Seq<char>, Seq<char>)> {
    Seq::new(edges.len(), |i: int| (edges[i].source@, edges[i].target@))
}

/// Number of resolved edges.
pub open spec fn resolved_count(edges: Seq<GraphEdge>) -> nat
    decreases edges.len(),
{
    if edges.len() == 0 {
        0
    } else {
        resolved_count(edges.drop_last()) + if edges.last().resolved { 1nat } else { 0nat }
    }
}

proof fn lemma_resolved_count(edges: Seq<GraphEdge>)
    ensures
        resolved_count(edges) <= edges.len(),
    decreases edges.len(),
{
    if edges.len() > 0 {
        lemma_resolved_count(edges.drop_last());
    }
}

proof fn lemma_distinct_count<A>(s: Seq<A>)
    ensures
        distinct_count(s) <= s.len(),
    decreases s.len(),
{
    if s.len() > 0 {
        lemma_distinct_count(s.drop_last());
    }
}

proof fn lemma_distinct_count_set<A>(s: Seq<A>)
    ensures
        distinct_count(s) == s.to_set().len(),
        s.to_set().finite(),
    decreases s.len(),
{
    if s.len() == 0 {
        assert(s.to_set() =~= Set::<A>::empty());
    } else {
        let d = s.drop_last();
        lemma_distinct_count_set(d);
        assert(s.to_set() =~= d.to_set().insert(s.last())) by {
            assert forall|x: A| s.to_set().contains(x) <==> d.to_set().insert(s.last()).contains(x) by {
                if s.contains(x) {
                    let i = choose|i: int| 0 <= i < s.len() && s[i] == x;
                    if i < d.len() {
                        assert(d[i] == x);
                    }
                }
                if d.contains(x) {
                    let i = choose|i: int| 0 <= i < d.len() && d[i] == x;
                    assert(s[i] == x);
                }
                assert(s[s.len() - 1] == s.last());
            }
        }
    }
}

/// The unique-edge count of the graph statistics is the number of distinct
/// (source, target) pairs among all edges, whatever their order.
pub proof fn unique_edges_are_distinct_pairs(edges: Seq<GraphEdge>)
    ensures
        distinct_count(edge_pairs(edges)) == Set::new(
            |p: (Seq<char>, Seq<char>)| exists|i: int| 0 <= i < edges.len() && (edges[i].source@, edges[i].target@) == p,
        ).len(),
{
    let ps = edge_pairs(edges);
    lemma_distinct_count_set(ps);
    let pairs = Set::new(
        |p: (Seq<char>, Seq<char>)| exists|i: int| 0 <= i < edges.len() && (edges[i].source@, edges[i].target@) == p,
    );
    assert(ps.to_set() =~= pairs) by {
        assert forall|p: (Seq<char>, Seq<char>)| ps.to_set().contains(p) <==> pairs.contains(p) by {
            if ps.contains(p) {
                let i = choose|i: int| 0 <= i < ps.len() && ps[i] == p;
                assert((edges[i].source@, edges[i].target@) == p);
            }
            if pairs.contains(p) {
                let i = choose|i: int| 0 <= i < edges.len() && (edges[i].source@, edges[i].target@) == p;
                assert(ps[i] == p);
            }
        }
    }
}

/// Whether an earlier edge joins the same source and target.
fn pair_seen_before(edges: &Vec<GraphEdge>, i: usize) -> (r: bool)
    requires
        i < edges@.len(),
    ensures
        r == edge_pairs(edges@).take(i as int).contains(edge_pairs(edges@)[i as int]),
{
    let ghost ps = edge_pairs(edges@);
    let s = chars_of(edges[i].source.as_str());
    let t = chars_of(edges[i].target.as_str());
    let mut j: usize = 0;
    while j < i
        invariant
            j <= i < edges@.len(),
            ps == edge_pairs(edges@),
            s@ == edges@[i as int].source@,
            t@ == edges@[i as int].target@,
            forall|m: int| 0 <= m < j ==> ps[m] != ps[i as int],
        decreases i - j,
    {
        let sj = chars_of(edges[j].source.as_str());
        let tj = chars_of(edges[j].target.as_str());
        if chars_equal(sj.as_slice(), s.as_slice()) && chars_equal(tj.as_slice(), t.as_slice()) {
            assert(ps.take(i as int)[j as int] == ps[i as int]);
            return true;
        }
        j = j + 1;
    }
    proof {
        if ps.take(i as int).contains(ps[i as int]) {
            let m = choose|m: int| 0 <= m < ps.take(i as int).len() && ps.take(i as int)[m] == ps[i as int];
            assert(ps[m] == ps[i as int]);
        }
    }
    false
}

/// Counts of a graph, with the entity counts of its index.
pub fn stats(graph: &Graph, entity_nodes: usize, entity_mentions: usize, entity_relations: usize) -> (r: GraphStats)
    ensures
        r.nodes == graph.node_seq().len(),
        r.links == graph.edge_seq().len(),
        r.unique_edges == distinct_count(edge_pairs(graph.edge_seq())),
        r.resolved_links == resolved_count(graph.edge_seq()),
        r.dangling_links == r.links - r.resolved_links,
        r.entity_nodes == entity_nodes,
        r.entity_mentions == entity_mentions,
        r.entity_relations == entity_relations,
{
    let edges = &graph.edges;
    let mut unique: usize = 0;
    let mut resolved: usize = 0;
    let mut i: usize = 0;
    while i < edges.len()
        invariant
            i <= edges@.len(),
            edges@ == graph.edge_seq(),
            unique == distinct_count(edge_pairs(edges@).take(i as int)),
            resolved == resolved_count(edges@.take(i as int)),
        decreases edges@.len() - i,
    {
        proof {
            let ps = edge_pairs(edges@);
            assert(ps.take(i + 1).drop_last() =~= ps.take(i as int));
            assert(edges@.take(i + 1).drop_last() =~= edges@.take(i as int));
            lemma_distinct_count(ps.take(i as int));
            lemma_resolved_count(edges@.take(i as int));
        }
        if !pair_seen_before(edges, i) {
            unique = unique + 1;
        }
        if edges[i].resolved {
            resolved = resolved + 1;
        }
        i = i + 1;
    }
    proof {
        assert(edge_pairs(edges@).take(edges@.len() as int) =~= edge_pairs(edges@));
        assert(edges@.take(edges@.len() as int) =~= edges@);
        lemma_resolved_count(edges@);
    }
    GraphStats {
        nodes: graph.nodes.len(),
        links: edges.len(),
        unique_edges: unique,
        resolved_links: resolved,
        dangling_links: edges.len() - resolved,
        entity_nodes,
        entity_mentions,
        entity_relations,
    }
}

/// Every link is either resolved or dangling, and no more distinct
/// (source, target) pairs than links.
pub proof fn stats_partition_links(graph: Graph)
    ensures
        resolved_count(graph.edge_seq()) + (graph.edge_seq().len() - resolved_count(graph.edge_seq())) == graph.edge_seq().len(),
        resolved_count(graph.edge_seq()) <= graph.edge_seq().len(),
        distinct_count(edge_pairs(graph.edge_seq())) <= graph.edge_seq().len(),
{
    lemma_resolved_count(graph.edge_seq());
    lemma_distinct_count(edge_pairs(graph.edge_seq()));
}

/// The graph's nodes, ordered by id, and its edges.
pub fn export(graph: Graph) -> (r: GraphExport)
    ensures
        r.nodes@ == graph.node_seq(),
        r.edges@ == graph.edge_seq(),
{
    let Graph { nodes, edges } = graph;
    GraphExport { nodes, edges }
}

/// The stats report.
pub open spec fn stats_text(st: GraphStats) -> Seq<char> {
    "== Graph stats ==\nNodes: "@ + decimal(st.nodes as nat) + "\nLinks: "@ + decimal(st.links as nat)
        + "\nUnique edges: "@ + decimal(st.unique_edges as nat) + "\nResolved links: "@
        + decimal(st.resolved_links as nat) + "\nDangling links: "@ + decimal(st.dangling_links as nat)
        + "\nEntity nodes: "@ + decimal(st.entity_nodes as nat) + "\nEntity mentions: "@
        + decimal(st.entity_mentions as nat) + "\nEntity relations: "@ + decimal(st.entity_relations as nat)
        + "\n"@
}

/// Renders the stats report.
pub fn format_stats(stats: &GraphStats) -> (r: String)
    ensures
        r@ == stats_text(*stats),
{
    let mut o = String::new();
    o.append("== Graph stats ==\nNodes: ");
    push_decimal(&mut o, stats.nodes as u64);
    o.append("\nLinks: ");
    push_decimal(&mut o, stats.links as u64);
    o.append("\nUnique edges: ");
    push_decimal(&mut o, stats.unique_edges as u64);
    o.append("\nResolved links: ");
    push_decimal(&mut o, stats.resolved_links as u64);
    o.append("\nDangling links: ");
    push_decimal(&mut o, stats.dangling_links as u64);
    o.append("\nEntity nodes: ");
    push_decimal(&mut o, stats.entity_nodes as u64);
    o.append("\nEntity mentions: ");
    push_decimal(&mut o, stats.entity_mentions as u64);
    o.append("\nEntity relations: ");
    push_decimal(&mut o, stats.entity_relations as u64);
    o.append("\n");
    assert(o@ =~= stats_text(*stats));
    o
}

// ---------------------------------------------------------------------------
// Resolving pages and incident links
// ---------------------------------------------------------------------------

/// A copy of a node.
fn clone_node(n: &GraphNode) -> (r: GraphNode)
    ensures
        node_view(r) == node_view(*n),
{
    GraphNode { id: n.id.clone(), path: n.path.clone(), title: n.title.clone() }
}

/// The nodes whose lower-cased title equals `folded`, in order.
pub open spec fn title_matches(nodes: Seq<GraphNode>, folded: Seq<char>) -> Seq<GraphNode>
    decreases nodes.len(),
{
    if nodes.len() == 0 {
        seq![]
    } else {
        let rest = title_matches(nodes.drop_last(), folded);
        if unicode_lowercase(nodes.last().title@) == folded {
            rest.push(nodes.last())
        } else {
            rest
        }
    }
}

/// What a page query resolves to: the node whose id is the query's
/// canonical form, else the one node whose lower-cased title is the
/// trimmed, lower-cased query; otherwise the error message.
pub open spec fn resolution(nodes: Seq<GraphNode>, q: Seq<char>) -> Result<(Seq<char>, Seq<char>, Seq<char>), Seq<char>> {
    let c = canonical(q);
    if node_ids(nodes).contains(c) {
        Ok(node_view(nodes[first_with_id(nodes, c) as int]))
    } else {
        let m = title_matches(nodes, unicode_lowercase(trim(q)));
        if m.len() == 1 {
            Ok(node_view(m[0]))
        } else if m.len() == 0 {
            Err("graph entity not found: "@ + q)
        } else {
            Err("graph entity title is ambiguous: "@ + q + "; candidates: "@ + join(node_ids(m), ", "@))
        }
    }
}

/// A node result as its view, an error as its message.
pub open spec fn node_result_view(r: Result<GraphNode, GraphError>) -> Result<(Seq<char>, Seq<char>, Seq<char>), Seq<char>> {
    match r {
        Ok(n) => Ok(node_view(n)),
        Err(GraphError::Invalid(m)) => Err(m@),
        Err(GraphError::Database(m)) => Err(m@),
    }
}

/// The node a query names, by canonical path or by title.
pub fn resolve_node(graph: &Graph, query: &str) -> (r: Result<GraphNode, GraphError>)
    ensures
        node_result_view(r) == resolution(graph.node_seq(), query@),
        r is Err ==> r->Err_0 is Invalid,
{
    let nodes = &graph.nodes;
    let c = canonical_path(query);
    match find_node(nodes, c.as_str()) {
        Some(p) => {
            assert(node_ids(nodes@)[p as int] == c@);
            return Ok(clone_node(&nodes[p]));
        },
        None => {},
    }
    let folded = to_lowercase(string_of(trim_chars(chars_of(query).as_slice()).as_slice()).as_str());
    let fv = chars_of(folded.as_str());
    let mut matches: Vec<GraphNode> = Vec::new();
    let mut i: usize = 0;
    while i < nodes.len()
        invariant
            i <= nodes@.len(),
            fv@ == unicode_lowercase(trim(query@)),
            forall|j: int| 0 <= j < matches@.len() ==> node_view(#[trigger] matches@[j]) == node_view(title_matches(nodes@.take(i as int), fv@)[j]),
            matches@.len() == title_matches(nodes@.take(i as int), fv@).len(),
        decreases nodes@.len() - i,
    {
        proof {
            assert(nodes@.take(i + 1).drop_last() =~= nodes@.take(i as int));
        }
        let t = to_lowercase(nodes[i].title.as_str());
        let tv = chars_of(t.as_str());
        if chars_equal(tv.as_slice(), fv.as_slice()) {
            matches.push(clone_node(&nodes[i]));
        }
        i = i + 1;
    }
    assert(nodes@.take(nodes@.len() as int) =~= nodes@);
    let ghost m = title_matches(nodes@, fv@);
    if matches.len() == 1 {
        return Ok(clone_node(&matches[0]));
    }
    let mut msg = String::new();
    if matches.len() == 0 {
        msg.append("graph entity not found: ");
        msg.append(query);
        return Err(GraphError::Invalid(msg));
    }
    msg.append("graph entity title is ambiguous: ");
    msg.append(query);
    msg.append("; candidates: ");
    let mut ids: Vec<String> = Vec::new();
    let mut j: usize = 0;
    while j < matches.len()
        invariant
            j <= matches@.len(),
            matches@.len() == m.len(),
            forall|k: int| 0 <= k < matches@.len() ==> node_view(#[trigger] matches@[k]) == node_view(m[k]),
            crate::text::str_views(ids@) == node_ids(m).take(j as int),
        decreases matches@.len() - j,
    {
        let ghost before = crate::text::str_views(ids@);
        ids.push(matches[j].id.clone());
        proof {
            assert(crate::text::str_views(ids@) =~= before.push(m[j as int].id@));
            assert(node_ids(m).take(j + 1) =~= node_ids(m).take(j as int).push(m[j as int].id@));
        }
        j = j + 1;
    }
    assert(node_ids(m).take(m.len() as int) =~= node_ids(m));
    crate::text::push_joined_strings(&mut msg, &ids, ", ");
    Err(GraphError::Invalid(msg))
}

/// The edge touches `current` in a followed direction: as its source for
/// outgoing links, as the target of a resolved link for incoming ones.
pub open spec fn incident(e: GraphEdge, current: Seq<char>, dir: GraphDirection) -> bool {
    ||| (dir != GraphDirection::Incoming && e.source@ == current)
    ||| (dir != GraphDirection::Outgoing && e.resolved && e.target@ == current)
}

/// Ids, in increasing order, of the first `n` edges that touch `current`.
pub open spec fn incident_ids(edges: Seq<GraphEdge>, current: Seq<char>, dir: GraphDirection, n: nat) -> Seq<usize>
    decreases n,
{
    if n == 0 {
        seq![]
    } else {
        let rest = incident_ids(edges, current, dir, (n - 1) as nat);
        if incident(edges[n - 1], current, dir) {
            rest.push((n - 1) as usize)
        } else {
            rest
        }
    }
}

/// Ids of the edges that touch `current` in the given direction, in
/// increasing order.
pub fn edge_ids_for_direction(graph: &Graph, current: &str, direction: GraphDirection) -> (r: Vec<usize>)
    ensures
        r@ == incident_ids(graph.edge_seq(), current@, direction, graph.edge_seq().len()),
{
    let edges = &graph.edges;
    let cur = chars_of(current);
    let mut r: Vec<usize> = Vec::new();
    let mut i: usize = 0;
    while i < edges.len()
        invariant
            i <= edges@.len(),
            cur@ == current@,
            r@ == incident_ids(edges@, current@, direction, i as nat),
        decreases edges@.len() - i,
    {
        let out = direction != GraphDirection::Incoming
            && chars_equal(chars_of(edges[i].source.as_str()).as_slice(), cur.as_slice());
        let inc = direction != GraphDirection::Outgoing && edges[i].resolved
            && chars_equal(chars_of(edges[i].target.as_str()).as_slice(), cur.as_slice());
        if out || inc {
            r.push(i);
        }
        i = i + 1;
    }
    r
}

// ---------------------------------------------------------------------------
// Neighbourhood records and their order
// ---------------------------------------------------------------------------

/// One link met while walking a neighbourhood, with the depth at which it
/// was met and whether it leaves (`outgoing`) or enters (`incoming`) the
/// page it was reached from.
pub struct NeighborEdge {
    pub depth: usize,
    pub direction: String,
    pub source: String,
    pub target: String,
    pub link_text: Option<String>,
    pub resolved: bool,
}

/// A neighbourhood walk: the root page, the depth walked, the direction
/// followed and the links met, ordered and without repeats.
pub struct NeighborResult {
    pub root: GraphNode,
    pub depth: usize,
    pub direction: GraphDirection,
    pub edges: Vec<NeighborEdge>,
}

/// A record as (depth, direction, source, target, link text, resolved).
pub open spec fn record_view(r: NeighborEdge) -> (nat, Seq<char>, Seq<char>, Seq<char>, Option<Seq<char>>, bool) {
    (r.depth as nat, r.direction@, r.source@, r.target@, opt_view(r.link_text), r.resolved)
}

pub open spec fn record_views(rs: Seq<NeighborEdge>) -> Seq<(nat, Seq<char>, Seq<char>, Seq<char>, Option<Seq<char>>, bool)> {
    Seq::new(rs.len(), |i: int| record_view(rs[i]))
}

/// Absent texts first, then texts in string order.
pub open spec fn opt_lt(a: Option<Seq<char>>, b: Option<Seq<char>>) -> bool {
    match (a, b) {
        (None, Some(_)) => true,
        (Some(x), Some(y)) => lex_lt(x, y),
        _ => false,
    }
}

/// Records ordered by depth, direction, source, target, link text, then
/// resolved.
pub open spec fn record_lt(
    a: (nat, Seq<char>, Seq<char>, Seq<char>, Option<Seq<char>>, bool),
    b: (nat, Seq<char>, Seq<char>, Seq<char>, Option<Seq<char>>, bool),
) -> bool {
    if a.0 != b.0 {
        a.0 < b.0
    } else if a.1 != b.1 {
        lex_lt(a.1, b.1)
    } else if a.2 != b.2 {
        lex_lt(a.2, b.2)
    } else if a.3 != b.3 {
        lex_lt(a.3, b.3)
    } else if a.4 != b.4 {
        opt_lt(a.4, b.4)
    } else {
        !a.5 && b.5
    }
}

/// Records strictly increasing.
pub open spec fn records_sorted(s: Seq<(nat, Seq<char>, Seq<char>, Seq<char>, Option<Seq<char>>, bool)>) -> bool {
    forall|i: int, j: int| 0 <= i < j < s.len() ==> record_lt(#[trigger] s[i], #[trigger] s[j])
}

proof fn lemma_opt_transitive(a: Option<Seq<char>>, b: Option<Seq<char>>, c: Option<Seq<char>>)
    requires
        opt_lt(a, b),
        opt_lt(b, c),
    ensures
        opt_lt(a, c),
{
    match (a, b, c) {
        (Some(x), Some(y), Some(z)) => lemma_lex_transitive(x, y, z),
        _ => {},
    }
}

proof fn lemma_opt_total(a: Option<Seq<char>>, b: Option<Seq<char>>)
    requires
        a != b,
    ensures
        opt_lt(a, b) || opt_lt(b, a),
{
    match (a, b) {
        (Some(x), Some(y)) => lemma_lex_total(x, y),
        _ => {},
    }
}

proof fn lemma_opt_irreflexive(a: Option<Seq<char>>)
    ensures
        !opt_lt(a, a),
{
    match a {
        Some(x) => lemma_lex_irreflexive(x),
        None => {},
    }
}

proof fn lemma_record_irreflexive(a: (nat, Seq<char>, Seq<char>, Seq<char>, Option<Seq<char>>, bool))
    ensures
        !record_lt(a, a),
{
}

proof fn lemma_record_transitive(
    a: (nat, Seq<char>, Seq<char>, Seq<char>, Option<Seq<char>>, bool),
    b: (nat, Seq<char>, Seq<char>, Seq<char>, Option<Seq<char>>, bool),
    c: (nat, Seq<char>, Seq<char>, Seq<char>, Option<Seq<char>>, bool),
)
    requires
        record_lt(a, b),
        record_lt(b, c),
    ensures
        record_lt(a, c),
{
    if a.0 != b.0 || b.0 != c.0 {
    } else if a.1 != b.1 || b.1 != c.1 {
        if a.1 != b.1 && b.1 != c.1 {
            lemma_lex_transitive(a.1, b.1, c.1);
            if a.1 == c.1 {
                lemma_lex_asymmetric(a.1, b.1);
            }
        }
    } else if a.2 != b.2 || b.2 != c.2 {
        if a.2 != b.2 && b.2 != c.2 {
            lemma_lex_transitive(a.2, b.2, c.2);
            if a.2 == c.2 {
                lemma_lex_asymmetric(a.2, b.2);
            }
        }
    } else if a.3 != b.3 || b.3 != c.3 {
        if a.3 != b.3 && b.3 != c.3 {
            lemma_lex_transitive(a.3, b.3, c.3);
            if a.3 == c.3 {
                lemma_lex_asymmetric(a.3, b.3);
            }
        }
    } else if a.4 != b.4 || b.4 != c.4 {
        if a.4 != b.4 && b.4 != c.4 {
            lemma_opt_transitive(a.4, b.4, c.4);
            if a.4 == c.4 {
                lemma_opt_transitive(a.4, b.4, a.4);
                lemma_opt_irreflexive(a.4);
            }
        }
    }
}

proof fn lemma_record_total(
    a: (nat, Seq<char>, Seq<char>, Seq<char>, Option<Seq<char>>, bool),
    b: (nat, Seq<char>, Seq<char>, Seq<char>, Option<Seq<char>>, bool),
)
    requires
        a != b,
    ensures
        record_lt(a, b) || record_lt(b, a),
{
    if a.0 != b.0 {
    } else if a.1 != b.1 {
        lemma_lex_total(a.1, b.1);
    } else if a.2 != b.2 {
        lemma_lex_total(a.2, b.2);
    } else if a.3 != b.3 {
        lemma_lex_total(a.3, b.3);
    } else if a.4 != b.4 {
        lemma_opt_total(a.4, b.4);
    }
}

fn opt_equal(a: &Option<String>, b: &Option<String>) -> (r: bool)
    ensures
        r == (opt_view(*a) == opt_view(*b)),
{
    match (a, b) {
        (Some(x), Some(y)) => chars_equal(chars_of(x.as_str()).as_slice(), chars_of(y.as_str()).as_slice()),
        (None, None) => true,
        _ => false,
    }
}

fn opt_less(a: &Option<String>, b: &Option<String>) -> (r: bool)
    ensures
        r == opt_lt(opt_view(*a), opt_view(*b)),
{
    match (a, b) {
        (Some(x), Some(y)) => chars_lt(chars_of(x.as_str()).as_slice(), chars_of(y.as_str()).as_slice()),
        (None, Some(_)) => true,
        _ => false,
    }
}

fn str_equal(a: &String, b: &String) -> (r: bool)
    ensures
        r == (a@ == b@),
{
    chars_equal(chars_of(a.as_str()).as_slice(), chars_of(b.as_str()).as_slice())
}

fn str_less(a: &String, b: &String) -> (r: bool)
    ensures
        r == lex_lt(a@, b@),
{
    chars_lt(chars_of(a.as_str()).as_slice(), chars_of(b.as_str()).as_slice())
}

/// `a` comes before `b` in record order.
fn record_less(a: &NeighborEdge, b: &NeighborEdge) -> (r: bool)
    ensures
        r == record_lt(record_view(*a), record_view(*b)),
{
    if a.depth != b.depth {
        a.depth < b.depth
    } else if !str_equal(&a.direction, &b.direction) {
        str_less(&a.direction, &b.direction)
    } else if !str_equal(&a.source, &b.source) {
        str_less(&a.source, &b.source)
    } else if !str_equal(&a.target, &b.target) {
        str_less(&a.target, &b.target)
    } else if !opt_equal(&a.link_text, &b.link_text) {
        opt_less(&a.link_text, &b.link_text)
    } else {
        !a.resolved && b.resolved
    }
}

/// Inserts a record into strictly increasing records, unless it is there.
fn insert_record(v: &mut Vec<NeighborEdge>, x: NeighborEdge)
    requires
        records_sorted(record_views(old(v)@)),
    ensures
        records_sorted(record_views(final(v)@)),
        record_views(final(v)@).to_set() == record_views(old(v)@).to_set().insert(record_view(x)),
{
    let mut p: usize = 0;
    while p < v.len() && record_less(&v[p], &x)
        invariant
            p <= v@.len(),
            forall|j: int| 0 <= j < p ==> record_lt(#[trigger] record_view(v@[j]), record_view(x)),
        decreases v@.len() - p,
    {
        p = p + 1;
    }
    let ghost old_views = record_views(v@);
    let ghost xv = record_view(x);
    if p < v.len() && !record_less(&x, &v[p]) {
        proof {
            if old_views[p as int] != xv {
                lemma_record_total(old_views[p as int], xv);
            }
            assert(old_views[p as int] == xv);
            assert(old_views.to_set() =~= old_views.to_set().insert(xv));
        }
        return;
    }
    proof {
        if p < old_views.len() {
            if old_views[p as int] != xv {
                lemma_record_total(old_views[p as int], xv);
            } else {
                lemma_record_irreflexive(xv);
            }
        }
    }
    v.insert(p, x);
    proof {
        let nv = record_views(v@);
        assert(nv =~= old_views.insert(p as int, xv));
        assert forall|i: int, j: int| 0 <= i < j < nv.len() implies record_lt(#[trigger] nv[i], #[trigger] nv[j]) by {
            if j < p {
                assert(nv[i] == old_views[i] && nv[j] == old_views[j]);
            } else if j == p {
                assert(nv[i] == old_views[i]);
            } else if i == p {
                assert(nv[j] == old_views[j - 1]);
                if j - 1 > p {
                    lemma_record_transitive(xv, old_views[p as int], old_views[j - 1]);
                }
            } else if i < p {
                assert(nv[i] == old_views[i] && nv[j] == old_views[j - 1]);
                if j - 1 >= p {
                    lemma_record_transitive(old_views[i], xv, old_views[p as int]);
                    if j - 1 > p {
                        lemma_record_transitive(old_views[i], old_views[p as int], old_views[j - 1]);
                    }
                }
            } else {
                assert(nv[i] == old_views[i - 1] && nv[j] == old_views[j - 1]);
            }
        }
        assert(nv.to_set() =~= old_views.to_set().insert(xv)) by {
            assert forall|e| nv.to_set().contains(e) implies old_views.to_set().insert(xv).contains(e) by {
                let k = choose|k: int| 0 <= k < nv.len() && nv[k] == e;
                if k < p {
                    assert(old_views[k] == e);
                } else if k > p {
                    assert(old_views[k - 1] == e);
                }
            }
            assert forall|e| old_views.to_set().insert(xv).contains(e) implies nv.to_set().contains(e) by {
                if e == xv {
                    assert(nv[p as int] == e);
                } else {
                    let k = choose|k: int| 0 <= k < old_views.len() && old_views[k] == e;
                    if k < p {
                        assert(nv[k] == e);
                    } else {
                        assert(nv[k + 1] == e);
                    }
                }
            }
        }
    }
}

// ---------------------------------------------------------------------------
// Breadth-first neighbourhoods
// ---------------------------------------------------------------------------

/// The end of `e` that is not `u` (the target when `u` is the source).
pub open spec fn other_end(e: GraphEdge, u: Seq<char>) -> Seq<char> {
    if e.source@ == u {
        e.target@
    } else {
        e.source@
    }
}

/// The walk may step from `u` to `v` over `e`: a followed, resolved link.
pub open spec fn follows(e: GraphEdge, u: Seq<char>, dir: GraphDirection, v: Seq<char>) -> bool {
    incident(e, u, dir) && e.resolved && other_end(e, u) == v
}

/// `v` is at most `d` steps from `root`.
pub open spec fn reach(edges: Seq<GraphEdge>, root: Seq<char>, dir: GraphDirection, v: Seq<char>, d: nat) -> bool
    decreases d,
{
    if d == 0 {
        v == root
    } else {
        ||| reach(edges, root, dir, v, (d - 1) as nat)
        ||| exists|u: Seq<char>, e: int| 0 <= e < edges.len() && #[trigger] follows(edges[e], u, dir, v)
            && reach(edges, root, dir, u, (d - 1) as nat)
    }
}

/// `v` is exactly `d` steps from `root`.
pub open spec fn at_distance(edges: Seq<GraphEdge>, root: Seq<char>, dir: GraphDirection, v: Seq<char>, d: nat) -> bool {
    reach(edges, root, dir, v, d) && (d == 0 || !reach(edges, root, dir, v, (d - 1) as nat))
}

/// The record of link `e` met from `u` at depth `d`.
pub open spec fn record_of(e: GraphEdge, u: Seq<char>, d: nat) -> (nat, Seq<char>, Seq<char>, Seq<char>, Option<Seq<char>>, bool) {
    (d, if e.source@ == u { "outgoing"@ } else { "incoming"@ }, e.source@, e.target@, opt_view(e.link_text), e.resolved)
}

/// The records of a walk to depth `max`: every followed link of every
/// page exactly `d < max` steps from the root, met at depth `d + 1`.
pub open spec fn neighbor_records(edges: Seq<GraphEdge>, root: Seq<char>, dir: GraphDirection, max: nat) -> Set<(nat, Seq<char>, Seq<char>, Seq<char>, Option<Seq<char>>, bool)> {
    Set::new(|r: (nat, Seq<char>, Seq<char>, Seq<char>, Option<Seq<char>>, bool)| exists|u: Seq<char>, e: int, d: nat|
        d < max && 0 <= e < edges.len() && #[trigger] at_distance(edges, root, dir, u, d) && #[trigger] incident(edges[e], u, dir)
            && r == record_of(edges[e], u, d + 1))
}

/// A walk depth clamped to `1..=MAX_TRAVERSAL_DEPTH`.
pub open spec fn walk_depth(depth: nat) -> nat {
    if depth < 1 {
        1
    } else if depth > MAX_TRAVERSAL_DEPTH {
        MAX_TRAVERSAL_DEPTH as nat
    } else {
        depth
    }
}

/// The message of an error.
pub open spec fn error_text(e: GraphError) -> Seq<char> {
    match e {
        GraphError::Invalid(m) => m@,
        GraphError::Database(m) => m@,
    }
}

proof fn lemma_incident_ids(edges: Seq<GraphEdge>, u: Seq<char>, dir: GraphDirection, n: nat)
    requires
        n <= edges.len(),
        edges.len() <= usize::MAX,
    ensures
        forall|b: int| 0 <= b < incident_ids(edges, u, dir, n).len() ==> {
            let e = #[trigger] incident_ids(edges, u, dir, n)[b];
            e < n && incident(edges[e as int], u, dir)
        },
        forall|e: int| 0 <= e < n && #[trigger] incident(edges[e], u, dir) ==> incident_ids(edges, u, dir, n).contains(e as usize),
    decreases n,
{
    if n > 0 {
        lemma_incident_ids(edges, u, dir, (n - 1) as nat);
        let rest = incident_ids(edges, u, dir, (n - 1) as nat);
        assert forall|e: int| 0 <= e < n && #[trigger] incident(edges[e], u, dir) implies incident_ids(edges, u, dir, n).contains(e as usize) by {
            if e < n - 1 {
                let b = choose|b: int| 0 <= b < rest.len() && rest[b] == e as usize;
                assert(incident_ids(edges, u, dir, n)[b] == e as usize);
            } else {
                assert(incident_ids(edges, u, dir, n).last() == e as usize);
            }
        }
    }
}

proof fn lemma_push_contains<A>(s: Seq<A>, x: A)
    ensures
        forall|v: A| s.push(x).contains(v) <==> (s.contains(v) || v == x),
{
    assert forall|v: A| s.push(x).contains(v) <==> (s.contains(v) || v == x) by {
        if s.contains(v) {
            let i = choose|i: int| 0 <= i < s.len() && s[i] == v;
            assert(s.push(x)[i] == v);
        }
        if v == x {
            assert(s.push(x)[s.len() as int] == v);
        }
        if s.push(x).contains(v) && v != x {
            let i = choose|i: int| 0 <= i < s.push(x).len() && s.push(x)[i] == v;
            assert(s[i] == v);
        }
    }
}

proof fn lemma_reach_monotone(edges: Seq<GraphEdge>, root: Seq<char>, dir: GraphDirection, v: Seq<char>, d: nat, d2: nat)
    requires
        d <= d2,
        reach(edges, root, dir, v, d),
    ensures
        reach(edges, root, dir, v, d2),
    decreases d2 - d,
{
    if d < d2 {
        lemma_reach_monotone(edges, root, dir, v, d, (d2 - 1) as nat);
    }
}

/// The walk from `root` in the given direction, as records.
fn walk(graph: &Graph, root: &String, max: usize, direction: GraphDirection) -> (r: Vec<NeighborEdge>)
    requires
        1 <= max <= MAX_TRAVERSAL_DEPTH,
    ensures
        records_sorted(record_views(r@)),
        record_views(r@).to_set() == neighbor_records(graph.edge_seq(), root@, direction, max as nat),
{
    let edges = &graph.edges;
    let ghost es = edges@;
    let ghost rt = root@;
    let mut seen: Vec<String> = Vec::new();
    seen.push(root.clone());
    let mut frontier: Vec<String> = Vec::new();
    frontier.push(root.clone());
    let mut records: Vec<NeighborEdge> = Vec::new();
    let mut d: usize = 0;
    proof {
        assert(crate::text::str_views(seen@) =~= seq![rt]);
        assert(crate::text::str_views(frontier@) =~= seq![rt]);
        assert forall|v: Seq<char>| crate::text::str_views(seen@).contains(v) <==> reach(es, rt, direction, v, 0) by {
            if v == rt {
                assert(crate::text::str_views(seen@)[0] == v);
            }
        }
        assert forall|v: Seq<char>| crate::text::str_views(frontier@).contains(v) <==> at_distance(es, rt, direction, v, 0) by {
            if v == rt {
                assert(crate::text::str_views(frontier@)[0] == v);
            }
        }
        assert(record_views(records@).to_set() =~= Set::empty());
    }
    while d < max
        invariant
            d <= max <= MAX_TRAVERSAL_DEPTH,
            es == edges@,
            es == graph.edge_seq(),
            rt == root@,
            forall|v: Seq<char>| crate::text::str_views(seen@).contains(v) <==> reach(es, rt, direction, v, d as nat),
            forall|v: Seq<char>| crate::text::str_views(frontier@).contains(v) <==> at_distance(es, rt, direction, v, d as nat),
            records_sorted(record_views(records@)),
            record_views(records@).to_set() == neighbor_records(es, rt, direction, d as nat),
        decreases max - d,
    {
        let mut next: Vec<String> = Vec::new();
        let mut a: usize = 0;
        assert(es.len() == edges.len());
        let ghost fr = crate::text::str_views(frontier@);
        let ghost seen0 = crate::text::str_views(seen@);
        let ghost recs0 = neighbor_records(es, rt, direction, d as nat);
        proof {
            assert(crate::text::str_views(next@) =~= Seq::<Seq<char>>::empty());
        }
        while a < frontier.len()
            invariant
                d < max <= MAX_TRAVERSAL_DEPTH,
                a <= frontier@.len(),
                es == edges@,
                es == graph.edge_seq(),
                es.len() <= usize::MAX,
                rt == root@,
                fr == crate::text::str_views(frontier@),
                forall|v: Seq<char>| fr.contains(v) <==> at_distance(es, rt, direction, v, d as nat),
                forall|v: Seq<char>| seen0.contains(v) <==> reach(es, rt, direction, v, d as nat),
                forall|v: Seq<char>| #![trigger crate::text::str_views(seen@).contains(v)] #![trigger seen0.contains(v)] #![trigger crate::text::str_views(next@).contains(v)] crate::text::str_views(seen@).contains(v) <==> (seen0.contains(v) || crate::text::str_views(next@).contains(v)),
                forall|v: Seq<char>| crate::text::str_views(next@).contains(v) <==> (!reach(es, rt, direction, v, d as nat)
                    && exists|i: int, e: int| 0 <= i < a && 0 <= e < es.len() && #[trigger] follows(es[e], fr[i], direction, v)),
                records_sorted(record_views(records@)),
                record_views(records@).to_set() == recs0 + Set::new(|r: (nat, Seq<char>, Seq<char>, Seq<char>, Option<Seq<char>>, bool)|
                    exists|i: int, e: int| 0 <= i < a && 0 <= e < es.len() && #[trigger] incident(es[e], fr[i], direction)
                        && r == record_of(es[e], fr[i], (d + 1) as nat)),
            decreases frontier@.len() - a,
        {
            let u = &frontier[a];
            let ids = edge_ids_for_direction(graph, u.as_str(), direction);
            proof {
                lemma_incident_ids(es, u@, direction, es.len());
                assert(fr[a as int] == u@);
            }
            let ghost nx0 = crate::text::str_views(next@);
            let ghost rc0 = record_views(records@).to_set();
            let mut b: usize = 0;
            while b < ids.len()
                invariant
                    d < max <= MAX_TRAVERSAL_DEPTH,
                    a < frontier@.len(),
                    b <= ids@.len(),
                    es == edges@,
                    es.len() <= usize::MAX,
                    rt == root@,
                    fr == crate::text::str_views(frontier@),
                    fr[a as int] == u@,
                    ids@ == incident_ids(es, u@, direction, es.len()),
                    forall|bb: int| 0 <= bb < ids@.len() ==> {
                        let e = #[trigger] ids@[bb];
                        e < es.len() && incident(es[e as int], u@, direction)
                    },
                    forall|v: Seq<char>| seen0.contains(v) <==> reach(es, rt, direction, v, d as nat),
                    forall|v: Seq<char>| #![trigger crate::text::str_views(seen@).contains(v)] #![trigger seen0.contains(v)] #![trigger crate::text::str_views(next@).contains(v)] crate::text::str_views(seen@).contains(v) <==> (seen0.contains(v) || crate::text::str_views(next@).contains(v)),
                    forall|v: Seq<char>| #![trigger crate::text::str_views(next@).contains(v)] #![trigger nx0.contains(v)] crate::text::str_views(next@).contains(v) <==> (nx0.contains(v) || (!reach(es, rt, direction, v, d as nat)
                        && exists|bb: int| 0 <= bb < b && #[trigger] follows(es[ids@[bb] as int], u@, direction, v))),
                    forall|v: Seq<char>| nx0.contains(v) ==> !reach(es, rt, direction, v, d as nat),
                    records_sorted(record_views(records@)),
                    record_views(records@).to_set() == rc0 + Set::new(|r: (nat, Seq<char>, Seq<char>, Seq<char>, Option<Seq<char>>, bool)|
                        exists|bb: int| 0 <= bb < b && r == record_of(es[#[trigger] ids@[bb] as int], u@, (d + 1) as nat)),
                decreases ids@.len() - b,
            {
                let eid = ids[b];
                let edge = &edges[eid];
                let outgoing = str_equal(&edge.source, u);
                let dir_text = if outgoing { string_of(chars_of("outgoing").as_slice()) } else { string_of(chars_of("incoming").as_slice()) };
                let rec = NeighborEdge {
                    depth: d + 1,
                    direction: dir_text,
                    source: edge.source.clone(),
                    target: edge.target.clone(),
                    link_text: clone_opt(&edge.link_text),
                    resolved: edge.resolved,
                };
                let ghost rv = record_view(rec);
                assert(rv == record_of(es[eid as int], u@, (d + 1) as nat));
                let ghost rs_before = record_views(records@).to_set();
                insert_record(&mut records, rec);
                let neighbor: &String = if outgoing { &edge.target } else { &edge.source };
                assert(neighbor@ == other_end(es[eid as int], u@));
                let ghost sv = crate::text::str_views(seen@);
                let ghost nv = crate::text::str_views(next@);
                let fresh = edge.resolved && !crate::ask::contains_string(&seen, neighbor.as_str());
                if fresh {
                    seen.push(neighbor.clone());
                    next.push(neighbor.clone());
                    proof {
                        assert(crate::text::str_views(seen@) =~= sv.push(neighbor@));
                        assert(crate::text::str_views(next@) =~= nv.push(neighbor@));
                        lemma_push_contains(sv, neighbor@);
                        lemma_push_contains(nv, neighbor@);
                    }
                }
                proof {
                    assert(follows(es[ids@[b as int] as int], u@, direction, neighbor@) == es[eid as int].resolved);
                    assert forall|v: Seq<char>| #![trigger crate::text::str_views(seen@).contains(v)] #![trigger seen0.contains(v)] #![trigger crate::text::str_views(next@).contains(v)] crate::text::str_views(seen@).contains(v) <==> (seen0.contains(v) || crate::text::str_views(next@).contains(v)) by {
                        if fresh {
                            assert(sv.contains(v) <==> (seen0.contains(v) || nv.contains(v)));
                        }
                    }
                    assert forall|v: Seq<char>| #![trigger crate::text::str_views(next@).contains(v)] #![trigger nx0.contains(v)] crate::text::str_views(next@).contains(v) <==> (nx0.contains(v) || (!reach(es, rt, direction, v, d as nat)
                        && exists|bb: int| 0 <= bb < b + 1 && #[trigger] follows(es[ids@[bb] as int], u@, direction, v))) by {
                        assert(nv.contains(v) <==> (nx0.contains(v) || (!reach(es, rt, direction, v, d as nat)
                            && exists|bb: int| 0 <= bb < b && #[trigger] follows(es[ids@[bb] as int], u@, direction, v))));
                        if exists|bb: int| 0 <= bb < b + 1 && #[trigger] follows(es[ids@[bb] as int], u@, direction, v) {
                            let bb = choose|bb: int| 0 <= bb < b + 1 && #[trigger] follows(es[ids@[bb] as int], u@, direction, v);
                            if bb == b {
                                assert(v == neighbor@);
                                if !fresh && !reach(es, rt, direction, v, d as nat) {
                                    assert(sv.contains(v));
                                    assert(!seen0.contains(v));
                                    assert(nv.contains(v));
                                }
                            } else {
                                assert(exists|bb: int| 0 <= bb < b && #[trigger] follows(es[ids@[bb] as int], u@, direction, v));
                            }
                        }
                        if fresh && v == neighbor@ {
                            assert(!sv.contains(v));
                            assert(!seen0.contains(v));
                            assert(!reach(es, rt, direction, v, d as nat));
                            assert(follows(es[ids@[b as int] as int], u@, direction, v));
                        }
                    }
                    assert(record_views(records@).to_set() =~= rc0 + Set::new(|r: (nat, Seq<char>, Seq<char>, Seq<char>, Option<Seq<char>>, bool)|
                        exists|bb: int| 0 <= bb < b + 1 && r == record_of(es[#[trigger] ids@[bb] as int], u@, (d + 1) as nat))) by {
                        assert forall|r| #![trigger record_views(records@).to_set().contains(r)] record_views(records@).to_set().contains(r) implies (rc0 + Set::new(|r: (nat, Seq<char>, Seq<char>, Seq<char>, Option<Seq<char>>, bool)|
                        exists|bb: int| 0 <= bb < b + 1 && r == record_of(es[#[trigger] ids@[bb] as int], u@, (d + 1) as nat))).contains(r) by {
                            if r == rv {
                                assert(r == record_of(es[ids@[b as int] as int], u@, (d + 1) as nat));
                            }
                        }
                    }
                }
                b = b + 1;
            }
            proof {
                assert forall|v: Seq<char>| crate::text::str_views(next@).contains(v) <==> (!reach(es, rt, direction, v, d as nat)
                    && exists|i: int, e: int| 0 <= i < a + 1 && 0 <= e < es.len() && #[trigger] follows(es[e], fr[i], direction, v)) by {
                    if exists|i: int, e: int| 0 <= i < a + 1 && 0 <= e < es.len() && #[trigger] follows(es[e], fr[i], direction, v) {
                        let (i, e) = choose|i: int, e: int| 0 <= i < a + 1 && 0 <= e < es.len() && #[trigger] follows(es[e], fr[i], direction, v);
                        if i == a && !nx0.contains(v) && !reach(es, rt, direction, v, d as nat) {
                            assert(incident(es[e], u@, direction));
                            assert(ids@.contains(e as usize));
                            let bb = choose|bb: int| 0 <= bb < ids@.len() && ids@[bb] == e as usize;
                            assert(follows(es[ids@[bb] as int], u@, direction, v));
                        }
                    }
                    if crate::text::str_views(next@).contains(v) && !nx0.contains(v) {
                        let bb = choose|bb: int| 0 <= bb < ids@.len() && #[trigger] follows(es[ids@[bb] as int], u@, direction, v);
                        assert(follows(es[ids@[bb] as int], fr[a as int], direction, v));
                    }
                }
                let news = Set::new(|r: (nat, Seq<char>, Seq<char>, Seq<char>, Option<Seq<char>>, bool)|
                    exists|i: int, e: int| 0 <= i < a + 1 && 0 <= e < es.len() && #[trigger] incident(es[e], fr[i], direction)
                        && r == record_of(es[e], fr[i], (d + 1) as nat));
                let olds = Set::new(|r: (nat, Seq<char>, Seq<char>, Seq<char>, Option<Seq<char>>, bool)|
                    exists|i: int, e: int| 0 <= i < a && 0 <= e < es.len() && #[trigger] incident(es[e], fr[i], direction)
                        && r == record_of(es[e], fr[i], (d + 1) as nat));
                let mine = Set::new(|r: (nat, Seq<char>, Seq<char>, Seq<char>, Option<Seq<char>>, bool)|
                    exists|bb: int| 0 <= bb < ids@.len() && r == record_of(es[#[trigger] ids@[bb] as int], u@, (d + 1) as nat));
                assert(rc0 == recs0 + olds);
                assert(news =~= olds + mine) by {
                    assert forall|r| news.contains(r) implies (olds + mine).contains(r) by {
                        let (i, e) = choose|i: int, e: int| 0 <= i < a + 1 && 0 <= e < es.len() && #[trigger] incident(es[e], fr[i], direction)
                            && r == record_of(es[e], fr[i], (d + 1) as nat);
                        if i == a {
                            assert(ids@.contains(e as usize));
                            let bb = choose|bb: int| 0 <= bb < ids@.len() && ids@[bb] == e as usize;
                            assert(r == record_of(es[ids@[bb] as int], u@, (d + 1) as nat));
                        } else {
                            assert(olds.contains(r));
                        }
                    }
                    assert forall|r| (olds + mine).contains(r) implies news.contains(r) by {
                        if mine.contains(r) {
                            let bb = choose|bb: int| 0 <= bb < ids@.len() && r == record_of(es[#[trigger] ids@[bb] as int], u@, (d + 1) as nat);
                            let e = ids@[bb] as int;
                            assert(incident(es[e], fr[a as int], direction));
                        } else {
                            let (i, e) = choose|i: int, e: int| 0 <= i < a && 0 <= e < es.len() && #[trigger] incident(es[e], fr[i], direction)
                                && r == record_of(es[e], fr[i], (d + 1) as nat);
                            assert(incident(es[e], fr[i], direction));
                        }
                    }
                }
                assert(record_views(records@).to_set() =~= recs0 + news);
            }
            a = a + 1;
        }
        proof {
            let dn = (d + 1) as nat;
            assert forall|v: Seq<char>| crate::text::str_views(next@).contains(v) <==> at_distance(es, rt, direction, v, dn) by {
                if crate::text::str_views(next@).contains(v) {
                    let (i, e) = choose|i: int, e: int| 0 <= i < frontier@.len() && 0 <= e < es.len() && #[trigger] follows(es[e], fr[i], direction, v);
                    assert(fr.contains(fr[i]));
                    assert(reach(es, rt, direction, fr[i], d as nat));
                    assert(reach(es, rt, direction, v, dn));
                }
                if at_distance(es, rt, direction, v, dn) {
                    let (u0, e) = choose|u0: Seq<char>, e: int| 0 <= e < es.len() && #[trigger] follows(es[e], u0, direction, v)
                        && reach(es, rt, direction, u0, d as nat);
                    if d > 0 && reach(es, rt, direction, u0, (d - 1) as nat) {
                        assert(reach(es, rt, direction, v, d as nat));
                    }
                    assert(at_distance(es, rt, direction, u0, d as nat));
                    assert(fr.contains(u0));
                    let i = choose|i: int| 0 <= i < fr.len() && fr[i] == u0;
                    assert(follows(es[e], fr[i], direction, v));
                }
            }
            assert forall|v: Seq<char>| crate::text::str_views(seen@).contains(v) <==> reach(es, rt, direction, v, dn) by {
                if reach(es, rt, direction, v, d as nat) {
                    lemma_reach_monotone(es, rt, direction, v, d as nat, dn);
                }
                if reach(es, rt, direction, v, dn) && !reach(es, rt, direction, v, d as nat) {
                    assert(at_distance(es, rt, direction, v, dn));
                }
                if crate::text::str_views(next@).contains(v) {
                    assert(at_distance(es, rt, direction, v, dn));
                }
            }
            let lvl = Set::new(|r: (nat, Seq<char>, Seq<char>, Seq<char>, Option<Seq<char>>, bool)|
                exists|i: int, e: int| 0 <= i < frontier@.len() && 0 <= e < es.len() && #[trigger] incident(es[e], fr[i], direction)
                    && r == record_of(es[e], fr[i], (d + 1) as nat));
            assert(neighbor_records(es, rt, direction, dn) =~= recs0 + lvl) by {
                assert forall|r| neighbor_records(es, rt, direction, dn).contains(r) implies (recs0 + lvl).contains(r) by {
                    let (u0, e, dd) = choose|u0: Seq<char>, e: int, dd: nat|
                        dd < dn && 0 <= e < es.len() && #[trigger] at_distance(es, rt, direction, u0, dd) && #[trigger] incident(es[e], u0, direction)
                            && r == record_of(es[e], u0, dd + 1);
                    if dd == d {
                        assert(fr.contains(u0));
                        let i = choose|i: int| 0 <= i < fr.len() && fr[i] == u0;
                        assert(incident(es[e], fr[i], direction));
                    } else {
                        assert(recs0.contains(r));
                    }
                }
                assert forall|r| (recs0 + lvl).contains(r) implies neighbor_records(es, rt, direction, dn).contains(r) by {
                    if lvl.contains(r) {
                        let (i, e) = choose|i: int, e: int| 0 <= i < frontier@.len() && 0 <= e < es.len() && #[trigger] incident(es[e], fr[i], direction)
                            && r == record_of(es[e], fr[i], (d + 1) as nat);
                        assert(fr.contains(fr[i]));
                        assert(at_distance(es, rt, direction, fr[i], d as nat));
                        assert(incident(es[e], fr[i], direction));
                    } else {
                        let (u0, e, dd) = choose|u0: Seq<char>, e: int, dd: nat|
                            dd < d && 0 <= e < es.len() && #[trigger] at_distance(es, rt, direction, u0, dd) && #[trigger] incident(es[e], u0, direction)
                                && r == record_of(es[e], u0, dd + 1);
                        assert(incident(es[e], u0, direction));
                    }
                }
            }
        }
        frontier = next;
        d = d + 1;
    }
    records
}

/// The links met walking from a page: the page named by `entity`, then
/// breadth-first along resolved links in the given direction, to `depth`
/// clamped to `1..=MAX_TRAVERSAL_DEPTH`; every link that touches a page
/// fewer than that many steps away is recorded once, at the page's distance
/// plus one.
pub fn neighbors(graph: &Graph, entity: &str, depth: usize, direction: GraphDirection) -> (r: Result<NeighborResult, GraphError>)
    ensures
        match r {
            Ok(res) => {
                &&& resolution(graph.node_seq(), entity@) == Ok::<_, Seq<char>>(node_view(res.root))
                &&& res.depth == walk_depth(depth as nat)
                &&& res.direction == direction
                &&& records_sorted(record_views(res.edges@))
                &&& record_views(res.edges@).to_set() == neighbor_records(graph.edge_seq(), res.root.id@, direction, res.depth as nat)
            },
            Err(e) => {
                &&& resolution(graph.node_seq(), entity@) == Err::<(Seq<char>, Seq<char>, Seq<char>), _>(error_text(e))
                &&& e is Invalid
            },
        },
{
    let root = match resolve_node(graph, entity) {
        Ok(n) => n,
        Err(e) => return Err(e),
    };
    let max: usize = if depth < 1 { 1 } else if depth > MAX_TRAVERSAL_DEPTH { MAX_TRAVERSAL_DEPTH } else { depth };
    let edges = walk(graph, &root.id, max, direction);
    Ok(NeighborResult { root, depth: max, direction, edges })
}

// ---------------------------------------------------------------------------
// Shortest directed paths
// ---------------------------------------------------------------------------

/// One link of a path.
pub struct PathStep {
    pub source: String,
    pub target: String,
    pub link_text: Option<String>,
}

/// A path query: both end pages and the links between them, empty when
/// they are the same page or no path was found.
pub struct PathResult {
    pub from: GraphNode,
    pub to: GraphNode,
    pub steps: Vec<PathStep>,
}

/// A step as (source, target, link text).
pub open spec fn step_view(s: PathStep) -> (Seq<char>, Seq<char>, Option<Seq<char>>) {
    (s.source@, s.target@, opt_view(s.link_text))
}

pub open spec fn step_views(ss: Seq<PathStep>) -> Seq<(Seq<char>, Seq<char>, Option<Seq<char>>)> {
    Seq::new(ss.len(), |i: int| step_view(ss[i]))
}

/// `steps` lead link by link from `a` to `b`, each a resolved link of the
/// graph.
pub open spec fn is_chain(steps: Seq<(Seq<char>, Seq<char>, Option<Seq<char>>)>, a: Seq<char>, b: Seq<char>, edges: Seq<GraphEdge>) -> bool {
    &&& steps.len() > 0
    &&& steps[0].0 == a
    &&& steps.last().1 == b
    &&& forall|i: int| 0 <= i < steps.len() - 1 ==> #[trigger] steps[i].1 == steps[i + 1].0
    &&& forall|i: int| 0 <= i < steps.len() ==> exists|e: int| 0 <= e < edges.len() && edges[e].resolved
        && #[trigger] steps[i] == (edges[e].source@, edges[e].target@, opt_view(edges[e].link_text))
}

/// Outgoing links ordered by target, then link text.
pub open spec fn link_key_lt(a: (Seq<char>, Option<Seq<char>>), b: (Seq<char>, Option<Seq<char>>)) -> bool {
    if a.0 != b.0 {
        lex_lt(a.0, b.0)
    } else {
        opt_lt(a.1, b.1)
    }
}

/// The (target, link text) of an edge.
pub open spec fn link_key(e: GraphEdge) -> (Seq<char>, Option<Seq<char>>) {
    (e.target@, opt_view(e.link_text))
}

proof fn lemma_key_transitive(a: (Seq<char>, Option<Seq<char>>), b: (Seq<char>, Option<Seq<char>>), c: (Seq<char>, Option<Seq<char>>))
    requires
        link_key_lt(a, b),
        link_key_lt(b, c),
    ensures
        link_key_lt(a, c),
{
    if a.0 != b.0 && b.0 != c.0 {
        lemma_lex_transitive(a.0, b.0, c.0);
        if a.0 == c.0 {
            lemma_lex_asymmetric(a.0, b.0);
        }
    } else if a.0 == b.0 && b.0 == c.0 {
        lemma_opt_transitive(a.1, b.1, c.1);
    }
}

proof fn lemma_key_asymmetric(a: (Seq<char>, Option<Seq<char>>), b: (Seq<char>, Option<Seq<char>>))
    requires
        link_key_lt(a, b),
    ensures
        !link_key_lt(b, a),
{
    if a.0 != b.0 {
        lemma_lex_asymmetric(a.0, b.0);
    } else if link_key_lt(b, a) {
        lemma_opt_transitive(a.1, b.1, a.1);
        lemma_opt_irreflexive(a.1);
    }
}

fn key_less(a: &GraphEdge, b: &GraphEdge) -> (r: bool)
    ensures
        r == link_key_lt(link_key(*a), link_key(*b)),
{
    if !str_equal(&a.target, &b.target) {
        str_less(&a.target, &b.target)
    } else {
        opt_less(&a.link_text, &b.link_text)
    }
}

/// The edge ids ordered by (target, link text), ties kept in their order.
fn sort_by_link_key(graph: &Graph, ids: &Vec<usize>) -> (r: Vec<usize>)
    requires
        forall|b: int| 0 <= b < ids@.len() ==> #[trigger] ids@[b] < graph.edge_seq().len(),
    ensures
        forall|x: usize| r@.contains(x) <==> ids@.contains(x),
        forall|b: int| 0 <= b < r@.len() ==> #[trigger] r@[b] < graph.edge_seq().len(),
        forall|i: int, j: int| 0 <= i < j < r@.len() ==> !link_key_lt(link_key(graph.edge_seq()[#[trigger] r@[j] as int]), link_key(graph.edge_seq()[#[trigger] r@[i] as int])),
{
    let edges = &graph.edges;
    let ghost es = edges@;
    let mut r: Vec<usize> = Vec::new();
    let mut k: usize = 0;
    while k < ids.len()
        invariant
            k <= ids@.len(),
            es == edges@,
            es == graph.edge_seq(),
            forall|b: int| 0 <= b < ids@.len() ==> #[trigger] ids@[b] < es.len(),
            forall|x: usize| r@.contains(x) <==> ids@.take(k as int).contains(x),
            forall|b: int| 0 <= b < r@.len() ==> #[trigger] r@[b] < es.len(),
            forall|i: int, j: int| 0 <= i < j < r@.len() ==> !link_key_lt(link_key(es[#[trigger] r@[j] as int]), link_key(es[#[trigger] r@[i] as int])),
        decreases ids@.len() - k,
    {
        let x = ids[k];
        let mut p: usize = 0;
        while p < r.len() && !key_less(&edges[x], &edges[r[p]])
            invariant
                p <= r@.len(),
                x < es.len(),
                es == edges@,
                forall|b: int| 0 <= b < r@.len() ==> #[trigger] r@[b] < es.len(),
                forall|j: int| 0 <= j < p ==> !link_key_lt(link_key(es[x as int]), link_key(es[#[trigger] r@[j] as int])),
            decreases r@.len() - p,
        {
            p = p + 1;
        }
        let ghost old_r = r@;
        r.insert(p, x);
        proof {
            assert(r@ =~= old_r.insert(p as int, x));
            assert forall|i: int, j: int| 0 <= i < j < r@.len() implies !link_key_lt(link_key(es[#[trigger] r@[j] as int]), link_key(es[#[trigger] r@[i] as int])) by {
                if j < p {
                    assert(r@[i] == old_r[i] && r@[j] == old_r[j]);
                } else if j == p {
                    assert(r@[i] == old_r[i]);
                } else if i == p {
                    assert(r@[j] == old_r[j - 1]);
                    let kx = link_key(es[x as int]);
                    let kp = link_key(es[old_r[p as int] as int]);
                    let kj = link_key(es[old_r[j - 1] as int]);
                    assert(link_key_lt(kx, kp));
                    if link_key_lt(kj, kx) {
                        if j - 1 > p {
                            lemma_key_transitive(kj, kx, kp);
                        } else {
                            lemma_key_asymmetric(kx, kp);
                        }
                    }
                } else if i < p {
                    assert(r@[i] == old_r[i] && r@[j] == old_r[j - 1]);
                } else {
                    assert(r@[i] == old_r[i - 1] && r@[j] == old_r[j - 1]);
                }
            }
            assert forall|y: usize| r@.contains(y) <==> ids@.take(k + 1).contains(y) by {
                assert(ids@.take(k + 1) =~= ids@.take(k as int).push(x));
                lemma_push_contains(ids@.take(k as int), x);
                if r@.contains(y) {
                    let m = choose|m: int| 0 <= m < r@.len() && r@[m] == y;
                    if m < p {
                        assert(old_r.contains(y));
                    } else if m > p {
                        assert(old_r[m - 1] == y);
                        assert(old_r.contains(y));
                    }
                }
                if y == x {
                    assert(r@[p as int] == y);
                } else if old_r.contains(y) {
                    let m = choose|m: int| 0 <= m < old_r.len() && old_r[m] == y;
                    if m < p {
                        assert(r@[m] == y);
                    } else {
                        assert(r@[m + 1] == y);
                    }
                }
            }
        }
        k = k + 1;
    }
    assert(ids@.take(ids@.len() as int) =~= ids@);
    r
}

/// Some entry is for `v`.
pub open spec fn has_entry(prev: Seq<(String, usize, usize)>, v: Seq<char>) -> bool {
    exists|i: int| 0 <= i < prev.len() && (#[trigger] prev[i]).0@ == v
}

/// `t` was first reached over link `eid` at distance `k` from `root`.
pub open spec fn prev_entry_ok(es: Seq<GraphEdge>, root: Seq<char>, t: Seq<char>, eid: usize, k: usize) -> bool {
    &&& eid < es.len()
    &&& es[eid as int].resolved
    &&& es[eid as int].target@ == t
    &&& k >= 1
    &&& at_distance(es, root, GraphDirection::Outgoing, t, k as nat)
    &&& at_distance(es, root, GraphDirection::Outgoing, es[eid as int].source@, (k - 1) as nat)
}

proof fn lemma_distance_unique(es: Seq<GraphEdge>, root: Seq<char>, dir: GraphDirection, v: Seq<char>, a: nat, b: nat)
    requires
        at_distance(es, root, dir, v, a),
        at_distance(es, root, dir, v, b),
    ensures
        a == b,
{
    if a < b {
        lemma_reach_monotone(es, root, dir, v, a, (b - 1) as nat);
    } else if b < a {
        lemma_reach_monotone(es, root, dir, v, b, (a - 1) as nat);
    }
}

/// Breadth-first search along resolved outgoing links from `root`, `max`
/// levels deep: the ids reached, and for each reached id other than the
/// root the link that first reached it and its distance.
fn path_search(graph: &Graph, root: &String, max: usize) -> (r: (Vec<String>, Vec<(String, usize, usize)>))
    requires
        max <= MAX_TRAVERSAL_DEPTH,
    ensures
        forall|v: Seq<char>| #![trigger crate::text::str_views(r.0@).contains(v)] crate::text::str_views(r.0@).contains(v) <==> reach(graph.edge_seq(), root@, GraphDirection::Outgoing, v, max as nat),
        forall|i: int| 0 <= i < r.1@.len() ==> prev_entry_ok(graph.edge_seq(), root@, (#[trigger] r.1@[i]).0@, r.1@[i].1, r.1@[i].2),
        forall|v: Seq<char>| #![trigger reach(graph.edge_seq(), root@, GraphDirection::Outgoing, v, max as nat)] reach(graph.edge_seq(), root@, GraphDirection::Outgoing, v, max as nat) && v != root@ ==> has_entry(r.1@, v),
{
    let direction = GraphDirection::Outgoing;
    let edges = &graph.edges;
    let ghost es = edges@;
    let ghost rt = root@;
    let mut seen: Vec<String> = Vec::new();
    seen.push(root.clone());
    let mut frontier: Vec<String> = Vec::new();
    frontier.push(root.clone());
    let mut prev: Vec<(String, usize, usize)> = Vec::new();
    let mut d: usize = 0;
    proof {
        assert(crate::text::str_views(seen@) =~= seq![rt]);
        assert(crate::text::str_views(frontier@) =~= seq![rt]);
        assert forall|v: Seq<char>| crate::text::str_views(seen@).contains(v) <==> reach(es, rt, direction, v, 0) by {
            if v == rt {
                assert(crate::text::str_views(seen@)[0] == v);
            }
        }
        assert forall|v: Seq<char>| crate::text::str_views(frontier@).contains(v) <==> at_distance(es, rt, direction, v, 0) by {
            if v == rt {
                assert(crate::text::str_views(frontier@)[0] == v);
            }
        }
    }
    while d < max
        invariant
            d <= max <= MAX_TRAVERSAL_DEPTH,
            es == edges@,
            es == graph.edge_seq(),
            rt == root@,
            direction == GraphDirection::Outgoing,
            forall|v: Seq<char>| #![trigger crate::text::str_views(seen@).contains(v)] crate::text::str_views(seen@).contains(v) <==> reach(es, rt, direction, v, d as nat),
            forall|v: Seq<char>| #![trigger crate::text::str_views(frontier@).contains(v)] crate::text::str_views(frontier@).contains(v) <==> at_distance(es, rt, direction, v, d as nat),
            forall|i: int| 0 <= i < prev@.len() ==> prev_entry_ok(es, rt, (#[trigger] prev@[i]).0@, prev@[i].1, prev@[i].2),
            forall|v: Seq<char>| #![trigger crate::text::str_views(seen@).contains(v)] crate::text::str_views(seen@).contains(v) && v != rt ==> has_entry(prev@, v),
        decreases max - d,
    {
        let mut next: Vec<String> = Vec::new();
        let mut a: usize = 0;
        assert(es.len() == edges.len());
        let ghost fr = crate::text::str_views(frontier@);
        let ghost seen0 = crate::text::str_views(seen@);
        proof {
            assert(crate::text::str_views(next@) =~= Seq::<Seq<char>>::empty());
        }
        while a < frontier.len()
            invariant
                d < max <= MAX_TRAVERSAL_DEPTH,
                a <= frontier@.len(),
                es == edges@,
                es == graph.edge_seq(),
                es.len() <= usize::MAX,
                rt == root@,
                direction == GraphDirection::Outgoing,
                fr == crate::text::str_views(frontier@),
                forall|v: Seq<char>| #![trigger fr.contains(v)] fr.contains(v) <==> at_distance(es, rt, direction, v, d as nat),
                forall|v: Seq<char>| #![trigger seen0.contains(v)] seen0.contains(v) <==> reach(es, rt, direction, v, d as nat),
                forall|v: Seq<char>| #![trigger crate::text::str_views(seen@).contains(v)] #![trigger seen0.contains(v)] #![trigger crate::text::str_views(next@).contains(v)] crate::text::str_views(seen@).contains(v) <==> (seen0.contains(v) || crate::text::str_views(next@).contains(v)),
                forall|v: Seq<char>| #![trigger crate::text::str_views(next@).contains(v)] crate::text::str_views(next@).contains(v) <==> (!reach(es, rt, direction, v, d as nat)
                    && exists|i: int, e: int| 0 <= i < a && 0 <= e < es.len() && #[trigger] follows(es[e], fr[i], direction, v)),
                forall|i: int| 0 <= i < prev@.len() ==> prev_entry_ok(es, rt, (#[trigger] prev@[i]).0@, prev@[i].1, prev@[i].2),
                forall|v: Seq<char>| #![trigger crate::text::str_views(seen@).contains(v)] crate::text::str_views(seen@).contains(v) && v != rt ==> has_entry(prev@, v),
            decreases frontier@.len() - a,
        {
            let u = &frontier[a];
            let ids0 = edge_ids_for_direction(graph, u.as_str(), direction);
            proof {
                lemma_incident_ids(es, u@, direction, es.len());
                assert(fr[a as int] == u@);
                assert(fr.contains(u@));
            }
            let ids = sort_by_link_key(graph, &ids0);
            proof {
                assert forall|bb: int| 0 <= bb < ids@.len() implies {
                    let e = #[trigger] ids@[bb];
                    e < es.len() && incident(es[e as int], u@, direction)
                } by {
                    assert(ids@.contains(ids@[bb]));
                    assert(ids0@.contains(ids@[bb]));
                    let b0 = choose|b0: int| 0 <= b0 < ids0@.len() && ids0@[b0] == ids@[bb];
                    assert(incident(es[ids0@[b0] as int], u@, direction));
                }
            }
            let ghost nx0 = crate::text::str_views(next@);
            let mut b: usize = 0;
            while b < ids.len()
                invariant
                    d < max <= MAX_TRAVERSAL_DEPTH,
                    a < frontier@.len(),
                    b <= ids@.len(),
                    es == edges@,
                    es.len() <= usize::MAX,
                    rt == root@,
                    direction == GraphDirection::Outgoing,
                    fr == crate::text::str_views(frontier@),
                    fr[a as int] == u@,
                    at_distance(es, rt, direction, u@, d as nat),
                    forall|bb: int| 0 <= bb < ids@.len() ==> {
                        let e = #[trigger] ids@[bb];
                        e < es.len() && incident(es[e as int], u@, direction)
                    },
                    forall|v: Seq<char>| #![trigger seen0.contains(v)] seen0.contains(v) <==> reach(es, rt, direction, v, d as nat),
                    forall|v: Seq<char>| #![trigger crate::text::str_views(seen@).contains(v)] #![trigger seen0.contains(v)] #![trigger crate::text::str_views(next@).contains(v)] crate::text::str_views(seen@).contains(v) <==> (seen0.contains(v) || crate::text::str_views(next@).contains(v)),
                    forall|v: Seq<char>| #![trigger crate::text::str_views(next@).contains(v)] #![trigger nx0.contains(v)] crate::text::str_views(next@).contains(v) <==> (nx0.contains(v) || (!reach(es, rt, direction, v, d as nat)
                        && exists|bb: int| 0 <= bb < b && #[trigger] follows(es[ids@[bb] as int], u@, direction, v))),
                    forall|v: Seq<char>| #![trigger nx0.contains(v)] nx0.contains(v) ==> !reach(es, rt, direction, v, d as nat),
                    forall|i: int| 0 <= i < prev@.len() ==> prev_entry_ok(es, rt, (#[trigger] prev@[i]).0@, prev@[i].1, prev@[i].2),
                    forall|v: Seq<char>| #![trigger crate::text::str_views(seen@).contains(v)] crate::text::str_views(seen@).contains(v) && v != rt ==> has_entry(prev@, v),
                decreases ids@.len() - b,
            {
                let eid = ids[b];
                let edge = &edges[eid];
                let ghost sv = crate::text::str_views(seen@);
                let ghost nv = crate::text::str_views(next@);
                let ghost pv = prev@;
                proof {
                    assert(incident(es[eid as int], u@, direction));
                    assert(es[eid as int].source@ == u@);
                }
                let fresh = edge.resolved && !crate::ask::contains_string(&seen, edge.target.as_str());
                if fresh {
                    seen.push(edge.target.clone());
                    next.push(edge.target.clone());
                    prev.push((edge.target.clone(), eid, d + 1));
                    proof {
                        assert(crate::text::str_views(seen@) =~= sv.push(edge.target@));
                        assert(crate::text::str_views(next@) =~= nv.push(edge.target@));
                        lemma_push_contains(sv, edge.target@);
                        lemma_push_contains(nv, edge.target@);
                        assert(follows(es[eid as int], u@, direction, edge.target@));
                        assert(!seen0.contains(edge.target@));
                        assert(reach(es, rt, direction, edge.target@, (d + 1) as nat));
                        assert(prev_entry_ok(es, rt, edge.target@, eid, (d + 1) as usize));
                        assert forall|i: int| 0 <= i < prev@.len() implies prev_entry_ok(es, rt, (#[trigger] prev@[i]).0@, prev@[i].1, prev@[i].2) by {
                            if i < pv.len() {
                                assert(prev@[i] == pv[i]);
                            }
                        }
                        assert forall|v: Seq<char>| #![trigger crate::text::str_views(seen@).contains(v)] crate::text::str_views(seen@).contains(v) && v != rt implies has_entry(prev@, v) by {
                            if v == edge.target@ {
                                assert(prev@[pv.len() as int].0@ == v);
                            } else {
                                assert(sv.contains(v));
                                assert(has_entry(pv, v));
                                let i = choose|i: int| 0 <= i < pv.len() && (#[trigger] pv[i]).0@ == v;
                                assert(prev@[i] == pv[i]);
                            }
                        }
                    }
                }
                proof {
                    assert(follows(es[ids@[b as int] as int], u@, direction, edge.target@) == es[eid as int].resolved);
                    assert forall|v: Seq<char>| crate::text::str_views(seen@).contains(v) <==> (seen0.contains(v) || crate::text::str_views(next@).contains(v)) by {
                        if fresh {
                            assert(sv.contains(v) <==> (seen0.contains(v) || nv.contains(v)));
                        }
                    }
                    assert forall|v: Seq<char>| #![trigger crate::text::str_views(next@).contains(v)] #![trigger nx0.contains(v)] crate::text::str_views(next@).contains(v) <==> (nx0.contains(v) || (!reach(es, rt, direction, v, d as nat)
                        && exists|bb: int| 0 <= bb < b + 1 && #[trigger] follows(es[ids@[bb] as int], u@, direction, v))) by {
                        assert(nv.contains(v) <==> (nx0.contains(v) || (!reach(es, rt, direction, v, d as nat)
                            && exists|bb: int| 0 <= bb < b && #[trigger] follows(es[ids@[bb] as int], u@, direction, v))));
                        if exists|bb: int| 0 <= bb < b + 1 && #[trigger] follows(es[ids@[bb] as int], u@, direction, v) {
                            let bb = choose|bb: int| 0 <= bb < b + 1 && #[trigger] follows(es[ids@[bb] as int], u@, direction, v);
                            if bb == b {
                                assert(v == edge.target@);
                                if !fresh && !reach(es, rt, direction, v, d as nat) {
                                    assert(sv.contains(v));
                                    assert(!seen0.contains(v));
                                    assert(nv.contains(v));
                                }
                            } else {
                                assert(exists|bb: int| 0 <= bb < b && #[trigger] follows(es[ids@[bb] as int], u@, direction, v));
                            }
                        }
                        if fresh && v == edge.target@ {
                            assert(!sv.contains(v));
                            assert(!seen0.contains(v));
                            assert(!reach(es, rt, direction, v, d as nat));
                            assert(follows(es[ids@[b as int] as int], u@, direction, v));
                        }
                    }
                }
                b = b + 1;
            }
            proof {
                assert forall|v: Seq<char>| #![trigger crate::text::str_views(next@).contains(v)] crate::text::str_views(next@).contains(v) <==> (!reach(es, rt, direction, v, d as nat)
                    && exists|i: int, e: int| 0 <= i < a + 1 && 0 <= e < es.len() && #[trigger] follows(es[e], fr[i], direction, v)) by {
                    if exists|i: int, e: int| 0 <= i < a + 1 && 0 <= e < es.len() && #[trigger] follows(es[e], fr[i], direction, v) {
                        let (i, e) = choose|i: int, e: int| 0 <= i < a + 1 && 0 <= e < es.len() && #[trigger] follows(es[e], fr[i], direction, v);
                        if i == a && !nx0.contains(v) && !reach(es, rt, direction, v, d as nat) {
                            assert(incident(es[e], u@, direction));
                            assert(ids0@.contains(e as usize));
                            assert(ids@.contains(e as usize));
                            let bb = choose|bb: int| 0 <= bb < ids@.len() && ids@[bb] == e as usize;
                            assert(follows(es[ids@[bb] as int], u@, direction, v));
                        }
                    }
                    if crate::text::str_views(next@).contains(v) && !nx0.contains(v) {
                        let bb = choose|bb: int| 0 <= bb < ids@.len() && #[trigger] follows(es[ids@[bb] as int], u@, direction, v);
                        assert(follows(es[ids@[bb] as int], fr[a as int], direction, v));
                    }
                }
            }
            a = a + 1;
        }
        proof {
            let dn = (d + 1) as nat;
            assert forall|v: Seq<char>| crate::text::str_views(next@).contains(v) <==> at_distance(es, rt, direction, v, dn) by {
                if crate::text::str_views(next@).contains(v) {
                    let (i, e) = choose|i: int, e: int| 0 <= i < frontier@.len() && 0 <= e < es.len() && #[trigger] follows(es[e], fr[i], direction, v);
                    assert(fr.contains(fr[i]));
                    assert(reach(es, rt, direction, fr[i], d as nat));
                    assert(reach(es, rt, direction, v, dn));
                }
                if at_distance(es, rt, direction, v, dn) {
                    let (u0, e) = choose|u0: Seq<char>, e: int| 0 <= e < es.len() && #[trigger] follows(es[e], u0, direction, v)
                        && reach(es, rt, direction, u0, d as nat);
                    if d > 0 && reach(es, rt, direction, u0, (d - 1) as nat) {
                        assert(reach(es, rt, direction, v, d as nat));
                    }
                    assert(at_distance(es, rt, direction, u0, d as nat));
                    assert(fr.contains(u0));
                    let i = choose|i: int| 0 <= i < fr.len() && fr[i] == u0;
                    assert(follows(es[e], fr[i], direction, v));
                }
            }
            assert forall|v: Seq<char>| crate::text::str_views(seen@).contains(v) <==> reach(es, rt, direction, v, dn) by {
                if reach(es, rt, direction, v, d as nat) {
                    lemma_reach_monotone(es, rt, direction, v, d as nat, dn);
                }
                if reach(es, rt, direction, v, dn) && !reach(es, rt, direction, v, d as nat) {
                    assert(at_distance(es, rt, direction, v, dn));
                }
                if crate::text::str_views(next@).contains(v) {
                    assert(at_distance(es, rt, direction, v, dn));
                }
            }
        }
        frontier = next;
        d = d + 1;
    }
    proof {
        assert forall|v: Seq<char>| #![trigger reach(graph.edge_seq(), root@, GraphDirection::Outgoing, v, max as nat)] reach(graph.edge_seq(), root@, GraphDirection::Outgoing, v, max as nat) && v != root@ implies has_entry(prev@, v) by {
            assert(crate::text::str_views(seen@).contains(v));
        }
    }
    (seen, prev)
}

/// Index of the entry for `id`.
fn find_prev(prev: &Vec<(String, usize, usize)>, id: &String) -> (r: Option<usize>)
    ensures
        match r {
            Some(i) => i < prev@.len() && prev@[i as int].0@ == id@,
            None => forall|i: int| 0 <= i < prev@.len() ==> (#[trigger] prev@[i]).0@ != id@,
        },
{
    let mut i: usize = 0;
    while i < prev.len()
        invariant
            i <= prev@.len(),
            forall|j: int| 0 <= j < i ==> (#[trigger] prev@[j]).0@ != id@,
        decreases prev@.len() - i,
    {
        if str_equal(&prev[i].0, id) {
            return Some(i);
        }
        i = i + 1;
    }
    None
}

/// The walk-free depth bound of a path query: at most
/// `MAX_TRAVERSAL_DEPTH`.
pub open spec fn path_depth(max_depth: nat) -> nat {
    if max_depth < MAX_TRAVERSAL_DEPTH { max_depth } else { MAX_TRAVERSAL_DEPTH as nat }
}

/// A shortest directed path between two pages along resolved links, at
/// most `max_depth` (capped at `MAX_TRAVERSAL_DEPTH`) links long. The steps
/// are empty exactly when both queries name the same page or no such path
/// exists; otherwise they form a chain from the first page to the second
/// whose length is the distance between them.
pub fn path(graph: &Graph, from: &str, to: &str, max_depth: usize) -> (r: Result<PathResult, GraphError>)
    ensures
        match r {
            Ok(res) => {
                let es = graph.edge_seq();
                let m = path_depth(max_depth as nat);
                let sv = step_views(res.steps@);
                &&& resolution(graph.node_seq(), from@) == Ok::<_, Seq<char>>(node_view(res.from))
                &&& resolution(graph.node_seq(), to@) == Ok::<_, Seq<char>>(node_view(res.to))
                &&& (sv.len() == 0 <==> (res.from.id@ == res.to.id@ || !reach(es, res.from.id@, GraphDirection::Outgoing, res.to.id@, m)))
                &&& (sv.len() > 0 ==> is_chain(sv, res.from.id@, res.to.id@, es)
                    && at_distance(es, res.from.id@, GraphDirection::Outgoing, res.to.id@, sv.len()))
            },
            Err(e) => {
                &&& e is Invalid
                &&& match resolution(graph.node_seq(), from@) {
                    Err(msg) => error_text(e) == msg,
                    Ok(_) => resolution(graph.node_seq(), to@) == Err::<(Seq<char>, Seq<char>, Seq<char>), _>(error_text(e)),
                }
            },
        },
{
    let from_node = match resolve_node(graph, from) {
        Ok(n) => n,
        Err(e) => return Err(e),
    };
    let to_node = match resolve_node(graph, to) {
        Ok(n) => n,
        Err(e) => return Err(e),
    };
    let m: usize = if max_depth < MAX_TRAVERSAL_DEPTH { max_depth } else { MAX_TRAVERSAL_DEPTH };
    let (seen, prev) = path_search(graph, &from_node.id, m);
    let edges = &graph.edges;
    let ghost es = edges@;
    let ghost rt = from_node.id@;
    let ghost dir = GraphDirection::Outgoing;
    let mut steps: Vec<PathStep> = Vec::new();
    if !str_equal(&from_node.id, &to_node.id) && crate::ask::contains_string(&seen, to_node.id.as_str()) {
        let first = find_prev(&prev, &to_node.id);
        proof {
            assert(has_entry(prev@, to_node.id@));
        }
        let fi = match first {
            Some(i) => i,
            None => {
                proof {
                    let i = choose|i: int| 0 <= i < prev@.len() && (#[trigger] prev@[i]).0@ == to_node.id@;
                }
                return Ok(PathResult { from: from_node, to: to_node, steps });
            },
        };
        let kt: usize = prev[fi].2;
        let mut kc: usize = kt;
        let mut current = to_node.id.clone();
        let ghost dt = kt as nat;
        proof {
            assert(prev_entry_ok(es, rt, prev@[fi as int].0@, prev@[fi as int].1, prev@[fi as int].2));
            assert(crate::text::str_views(seen@).contains(to_node.id@));
            assert(reach(es, rt, dir, to_node.id@, m as nat));
            if kt > m {
                lemma_reach_monotone(es, rt, dir, to_node.id@, m as nat, (kt - 1) as nat);
            }
        }
        while !str_equal(&current, &from_node.id)
            invariant
                es == edges@,
                es == graph.edge_seq(),
                rt == from_node.id@,
                dir == GraphDirection::Outgoing,
                m <= MAX_TRAVERSAL_DEPTH,
                kc <= dt <= m,
                at_distance(es, rt, dir, current@, kc as nat),
                at_distance(es, rt, dir, to_node.id@, dt),
                steps@.len() + kc == dt,
                forall|v: Seq<char>| #![trigger crate::text::str_views(seen@).contains(v)] crate::text::str_views(seen@).contains(v) <==> reach(es, rt, dir, v, m as nat),
                forall|i: int| 0 <= i < prev@.len() ==> prev_entry_ok(es, rt, (#[trigger] prev@[i]).0@, prev@[i].1, prev@[i].2),
                forall|v: Seq<char>| #![trigger reach(es, rt, dir, v, m as nat)] reach(es, rt, dir, v, m as nat) && v != rt ==> has_entry(prev@, v),
                steps@.len() == 0 ==> current@ == to_node.id@,
                steps@.len() > 0 ==> is_chain(step_views(steps@), current@, to_node.id@, es),
            decreases kc,
        {
            proof {
                lemma_reach_monotone(es, rt, dir, current@, kc as nat, m as nat);
                assert(has_entry(prev@, current@));
            }
            let pi = match find_prev(&prev, &current) {
                Some(i) => i,
                None => {
                    proof {
                        let i = choose|i: int| 0 <= i < prev@.len() && (#[trigger] prev@[i]).0@ == current@;
                    }
                    return Ok(PathResult { from: from_node, to: to_node, steps });
                },
            };
            let eid = prev[pi].1;
            let k = prev[pi].2;
            proof {
                assert(prev_entry_ok(es, rt, prev@[pi as int].0@, eid, k));
                lemma_distance_unique(es, rt, dir, current@, kc as nat, k as nat);
            }
            let edge = &edges[eid];
            let step = PathStep { source: edge.source.clone(), target: edge.target.clone(), link_text: clone_opt(&edge.link_text) };
            let ghost old_steps = step_views(steps@);
            let ghost stv = step_view(step);
            steps.insert(0, step);
            proof {
                let nsv = step_views(steps@);
                assert(nsv =~= seq![stv] + old_steps);
                assert(nsv[0] == (es[eid as int].source@, es[eid as int].target@, opt_view(es[eid as int].link_text)));
                assert forall|i: int| 0 <= i < nsv.len() - 1 implies #[trigger] nsv[i].1 == nsv[i + 1].0 by {
                    if i > 0 {
                        assert(nsv[i] == old_steps[i - 1]);
                        assert(nsv[i + 1] == old_steps[i]);
                    }
                }
                assert forall|i: int| 0 <= i < nsv.len() implies exists|e: int| 0 <= e < es.len() && es[e].resolved
                    && #[trigger] nsv[i] == (es[e].source@, es[e].target@, opt_view(es[e].link_text)) by {
                    if i == 0 {
                        assert(nsv[0] == (es[eid as int].source@, es[eid as int].target@, opt_view(es[eid as int].link_text)));
                    } else {
                        assert(nsv[i] == old_steps[i - 1]);
                    }
                }
                if old_steps.len() > 0 {
                    assert(nsv.last() == old_steps.last());
                }
            }
            current = edge.source.clone();
            kc = k - 1;
        }
        proof {
            assert(at_distance(es, rt, dir, rt, 0));
            lemma_distance_unique(es, rt, dir, rt, 0, kc as nat);
            lemma_reach_monotone(es, rt, dir, to_node.id@, dt, m as nat);
        }
    } else {
        proof {
            if from_node.id@ != to_node.id@ {
                assert(!crate::text::str_views(seen@).contains(to_node.id@));
            }
        }
    }
    Ok(PathResult { from: from_node, to: to_node, steps })
}

// ---------------------------------------------------------------------------
// Reports
// ---------------------------------------------------------------------------

/// The name of a walk direction.
pub open spec fn direction_name(d: GraphDirection) -> Seq<char> {
    match d {
        GraphDirection::Incoming => "incoming"@,
        GraphDirection::Outgoing => "outgoing"@,
        GraphDirection::Both => "both"@,
    }
}

/// ` [text]` for a link text, nothing without one.
pub open spec fn label_of(t: Option<Seq<char>>) -> Seq<char> {
    match t {
        Some(x) => " ["@ + x + "]"@,
        None => seq![],
    }
}

/// The report line of one walk record.
pub open spec fn neighbor_line(r: (nat, Seq<char>, Seq<char>, Seq<char>, Option<Seq<char>>, bool)) -> Seq<char> {
    "- depth "@ + decimal(r.0) + " ["@ + r.1 + "] "@ + r.2 + " --wiki"@ + label_of(r.4) + "--> "@ + r.3
        + (if r.5 { seq![] } else { " [dangling]"@ }) + "\n"@
}

/// The lines of the records, concatenated.
pub open spec fn neighbor_lines(rs: Seq<(nat, Seq<char>, Seq<char>, Seq<char>, Option<Seq<char>>, bool)>) -> Seq<char>
    decreases rs.len(),
{
    if rs.len() == 0 {
        seq![]
    } else {
        neighbor_lines(rs.drop_last()) + neighbor_line(rs.last())
    }
}

/// The neighbourhood report.
pub open spec fn neighbors_text(
    root: Seq<char>,
    depth: nat,
    dir: GraphDirection,
    rs: Seq<(nat, Seq<char>, Seq<char>, Seq<char>, Option<Seq<char>>, bool)>,
) -> Seq<char> {
    "== Graph neighbors: "@ + root + " ==\nDepth: "@ + decimal(depth) + "\nDirection: "@ + direction_name(dir) + "\n\n"@
        + if rs.len() == 0 {
        "(No neighbors found.)\n"@
    } else {
        neighbor_lines(rs) + "\n(Complete: "@ + decimal(rs.len()) + " edge(s).)\n"@
    }
}

fn push_label(o: &mut String, t: &Option<String>)
    ensures
        final(o)@ == old(o)@ + label_of(opt_view(*t)),
{
    match t {
        Some(x) => {
            o.append(" [");
            o.append(x.as_str());
            o.append("]");
        },
        None => {},
    }
}

fn neighbor_line_text(e: &NeighborEdge) -> (r: String)
    ensures
        r@ == neighbor_line(record_view(*e)),
{
    let mut o = String::new();
    o.append("- depth ");
    push_decimal(&mut o, e.depth as u64);
    o.append(" [");
    o.append(e.direction.as_str());
    o.append("] ");
    o.append(e.source.as_str());
    o.append(" --wiki");
    push_label(&mut o, &e.link_text);
    o.append("--> ");
    o.append(e.target.as_str());
    if !e.resolved {
        o.append(" [dangling]");
    }
    o.append("\n");
    assert(o@ =~= neighbor_line(record_view(*e)));
    o
}

/// Renders a neighbourhood report.
pub fn format_neighbors(result: &NeighborResult) -> (r: String)
    ensures
        r@ == neighbors_text(result.root.id@, result.depth as nat, result.direction, record_views(result.edges@)),
{
    let mut o = String::new();
    o.append("== Graph neighbors: ");
    o.append(result.root.id.as_str());
    o.append(" ==\nDepth: ");
    push_decimal(&mut o, result.depth as u64);
    o.append("\nDirection: ");
    match result.direction {
        GraphDirection::Incoming => o.append("incoming"),
        GraphDirection::Outgoing => o.append("outgoing"),
        GraphDirection::Both => o.append("both"),
    }
    o.append("\n\n");
    let ghost head = o@;
    let ghost rs = record_views(result.edges@);
    if result.edges.len() == 0 {
        o.append("(No neighbors found.)\n");
        return o;
    }
    let mut i: usize = 0;
    while i < result.edges.len()
        invariant
            i <= result.edges@.len(),
            rs == record_views(result.edges@),
            o@ == head + neighbor_lines(rs.take(i as int)),
        decreases result.edges@.len() - i,
    {
        let e = &result.edges[i];
        let line = neighbor_line_text(e);
        o.append(line.as_str());
        proof {
            assert(rs.take(i + 1).drop_last() =~= rs.take(i as int));
            assert(rs.take(i + 1).last() == record_view(*e));
            assert(o@ =~= head + neighbor_lines(rs.take(i + 1)));
        }
        i = i + 1;
    }
    assert(rs.take(rs.len() as int) =~= rs);
    o.append("\n(Complete: ");
    push_decimal(&mut o, result.edges.len() as u64);
    o.append(" edge(s).)\n");
    o
}

/// The report line of the step at 0-based position `i`.
pub open spec fn path_line(i: nat, s: (Seq<char>, Seq<char>, Option<Seq<char>>)) -> Seq<char> {
    decimal(i + 1) + ". "@ + s.0 + " --wiki"@ + label_of(s.2) + "--> "@ + s.1 + "\n"@
}

/// The lines of the steps, numbered from one.
pub open spec fn path_lines(ss: Seq<(Seq<char>, Seq<char>, Option<Seq<char>>)>) -> Seq<char>
    decreases ss.len(),
{
    if ss.len() == 0 {
        seq![]
    } else {
        path_lines(ss.drop_last()) + path_line((ss.len() - 1) as nat, ss.last())
    }
}

/// The path report.
pub open spec fn path_text(from: Seq<char>, to: Seq<char>, ss: Seq<(Seq<char>, Seq<char>, Option<Seq<char>>)>) -> Seq<char> {
    "== Graph path: "@ + from + " -> "@ + to + " ==\n"@ + if from == to {
        "Already at the target node (0 step(s)).\n"@
    } else if ss.len() == 0 {
        "(No directed path found.)\n"@
    } else {
        "Steps: "@ + decimal(ss.len()) + "\n"@ + path_lines(ss)
    }
}

/// Renders a path report.
pub fn format_path(result: &PathResult) -> (r: String)
    ensures
        r@ == path_text(result.from.id@, result.to.id@, step_views(result.steps@)),
{
    let mut o = String::new();
    o.append("== Graph path: ");
    o.append(result.from.id.as_str());
    o.append(" -> ");
    o.append(result.to.id.as_str());
    o.append(" ==\n");
    if str_equal(&result.from.id, &result.to.id) {
        o.append("Already at the target node (0 step(s)).\n");
        return o;
    }
    if result.steps.len() == 0 {
        o.append("(No directed path found.)\n");
        return o;
    }
    o.append("Steps: ");
    push_decimal(&mut o, result.steps.len() as u64);
    o.append("\n");
    let ghost head = o@;
    let ghost ss = step_views(result.steps@);
    let mut i: usize = 0;
    while i < result.steps.len()
        invariant
            i <= result.steps@.len(),
            ss == step_views(result.steps@),
            o@ == head + path_lines(ss.take(i as int)),
        decreases result.steps@.len() - i,
    {
        let st = &result.steps[i];
        push_decimal(&mut o, (i + 1) as u64);
        o.append(". ");
        o.append(st.source.as_str());
        o.append(" --wiki");
        push_label(&mut o, &st.link_text);
        o.append("--> ");
        o.append(st.target.as_str());
        o.append("\n");
        proof {
            assert(ss.take(i + 1).drop_last() =~= ss.take(i as int));
            assert(ss.take(i + 1).last() == step_view(*st));
            assert(o@ =~= head + path_lines(ss.take(i + 1)));
        }
        i = i + 1;
    }
    assert(ss.take(ss.len() as int) =~= ss);
    o
}

/// The targets of unresolved edges.
pub open spec fn dangling_targets(edges: Seq<GraphEdge>) -> Set<Seq<char>> {
    Set::new(|t: Seq<char>| exists|i: int| 0 <= i < edges.len() && !edges[i].resolved && #[trigger] edges[i].target@ == t)
}

/// The DOT line of a node.
pub open spec fn dot_node(n: GraphNode) -> Seq<char> {
    "  \""@ + dot_escaped(n.id@) + "\" [label=\""@ + dot_escaped(n.title@) + "\\n"@ + dot_escaped(n.path@) + "\"];\n"@
}

/// The DOT line of a dangling target.
pub open spec fn dot_dangling(t: Seq<char>) -> Seq<char> {
    "  \""@ + dot_escaped(t) + "\" [label=\""@ + dot_escaped(t) + "\", style=dashed];\n"@
}

/// The DOT line of an edge, labelled by its text or `wiki`.
pub open spec fn dot_edge(e: GraphEdge) -> Seq<char> {
    "  \""@ + dot_escaped(e.source@) + "\" -> \""@ + dot_escaped(e.target@) + "\" [label=\""@
        + dot_escaped(match opt_view(e.link_text) { Some(t) => t, None => "wiki"@ }) + "\"];\n"@
}

pub open spec fn dot_nodes(ns: Seq<GraphNode>) -> Seq<char>
    decreases ns.len(),
{
    if ns.len() == 0 { seq![] } else { dot_nodes(ns.drop_last()) + dot_node(ns.last()) }
}

pub open spec fn dot_danglings(ts: Seq<Seq<char>>) -> Seq<char>
    decreases ts.len(),
{
    if ts.len() == 0 { seq![] } else { dot_danglings(ts.drop_last()) + dot_dangling(ts.last()) }
}

pub open spec fn dot_edges(es: Seq<GraphEdge>) -> Seq<char>
    decreases es.len(),
{
    if es.len() == 0 { seq![] } else { dot_edges(es.drop_last()) + dot_edge(es.last()) }
}

/// The DOT document: nodes, then each dangling target once, then edges.
pub open spec fn dot_text(ns: Seq<GraphNode>, ts: Seq<Seq<char>>, es: Seq<GraphEdge>) -> Seq<char> {
    "digraph wiki {\n  rankdir=LR;\n"@ + dot_nodes(ns) + dot_danglings(ts) + dot_edges(es) + "}\n"@
}

fn dot_edge_text(ed: &GraphEdge) -> (r: String)
    ensures
        r@ == dot_edge(*ed),
{
    let mut o = String::new();
    o.append("  \"");
    o.append(escape_dot(ed.source.as_str()).as_str());
    o.append("\" -> \"");
    o.append(escape_dot(ed.target.as_str()).as_str());
    o.append("\" [label=\"");
    match &ed.link_text {
        Some(t) => o.append(escape_dot(t.as_str()).as_str()),
        None => o.append(escape_dot("wiki").as_str()),
    }
    o.append("\"];\n");
    assert(o@ =~= dot_edge(*ed));
    o
}

/// In a DOT string every double quote comes right after a backslash, so no
/// quote of an id, title, path or label ends the string early.
pub proof fn dot_quotes_are_escaped(s: Seq<char>)
    ensures
        forall|k: int| 0 <= k < dot_escaped(s).len() && #[trigger] dot_escaped(s)[k] == '"' ==> k > 0 && dot_escaped(s)[k - 1]
            == '\\',
    decreases s.len(),
{
    if s.len() > 0 {
        dot_quotes_are_escaped(s.drop_last());
        let e = dot_escaped(s);
        let p = dot_escaped(s.drop_last());
        assert forall|k: int| 0 <= k < e.len() && #[trigger] e[k] == '"' implies k > 0 && e[k - 1] == '\\' by {
            if k < p.len() {
                assert(e[k] == p[k] && e[k - 1] == p[k - 1]);
            }
        }
    }
}

/// The DOT text of an export is fully determined: the dashed nodes are the
/// distinct targets of unresolved edges, once each in ascending order, so
/// any two texts meeting `format_dot`'s contract are the same, namely the
/// header, one line per node, the dashed nodes, one line per edge and the
/// closing brace.
pub proof fn dot_text_is_determined(export: GraphExport, a: Seq<char>, b: Seq<char>)
    requires
        exists|ts: Seq<Seq<char>>| strictly_sorted(ts) && ts.to_set() == dangling_targets(export.edges@)
            && a == dot_text(export.nodes@, ts, export.edges@),
        exists|ts: Seq<Seq<char>>| strictly_sorted(ts) && ts.to_set() == dangling_targets(export.edges@)
            && b == dot_text(export.nodes@, ts, export.edges@),
    ensures
        a == b,
{
    let ta = choose|ts: Seq<Seq<char>>| strictly_sorted(ts) && ts.to_set() == dangling_targets(export.edges@)
        && a == dot_text(export.nodes@, ts, export.edges@);
    let tb = choose|ts: Seq<Seq<char>>| strictly_sorted(ts) && ts.to_set() == dangling_targets(export.edges@)
        && b == dot_text(export.nodes@, ts, export.edges@);
    crate::sdd_parse::lemma_sorted_unique(ta, tb);
}

/// Renders an export as a Graphviz DOT document; dangling targets appear
/// once each, in string order, drawn dashed.
pub fn format_dot(export: &GraphExport) -> (r: String)
    ensures
        exists|ts: Seq<Seq<char>>| strictly_sorted(ts) && ts.to_set() == dangling_targets(export.edges@)
            && r@ == dot_text(export.nodes@, ts, export.edges@),
{
    let mut o = String::new();
    o.append("digraph wiki {\n  rankdir=LR;\n");
    let ghost h0 = o@;
    let mut i: usize = 0;
    while i < export.nodes.len()
        invariant
            i <= export.nodes@.len(),
            o@ == h0 + dot_nodes(export.nodes@.take(i as int)),
        decreases export.nodes@.len() - i,
    {
        let n = &export.nodes[i];
        o.append("  \"");
        o.append(escape_dot(n.id.as_str()).as_str());
        o.append("\" [label=\"");
        o.append(escape_dot(n.title.as_str()).as_str());
        o.append("\\n");
        o.append(escape_dot(n.path.as_str()).as_str());
        o.append("\"];\n");
        proof {
            assert(export.nodes@.take(i + 1).drop_last() =~= export.nodes@.take(i as int));
            assert(o@ =~= h0 + dot_nodes(export.nodes@.take(i + 1)));
        }
        i = i + 1;
    }
    assert(export.nodes@.take(export.nodes@.len() as int) =~= export.nodes@);
    let mut dangling: Vec<Vec<char>> = Vec::new();
    let mut j: usize = 0;
    proof {
        assert(crate::text::views(dangling@).to_set() =~= Set::empty());
    }
    while j < export.edges.len()
        invariant
            j <= export.edges@.len(),
            strictly_sorted(crate::text::views(dangling@)),
            crate::text::views(dangling@).to_set() == dangling_targets(export.edges@.take(j as int)),
        decreases export.edges@.len() - j,
    {
        let ghost before = crate::text::views(dangling@).to_set();
        if !export.edges[j].resolved {
            crate::text::insert_sorted(&mut dangling, chars_of(export.edges[j].target.as_str()));
        }
        proof {
            let es = export.edges@;
            assert(dangling_targets(es.take(j + 1)) =~= if !es[j as int].resolved {
                dangling_targets(es.take(j as int)).insert(es[j as int].target@)
            } else {
                dangling_targets(es.take(j as int))
            }) by {
                assert forall|t: Seq<char>| #[trigger] dangling_targets(es.take(j + 1)).contains(t) implies (if !es[j as int].resolved {
                    dangling_targets(es.take(j as int)).insert(es[j as int].target@)
                } else {
                    dangling_targets(es.take(j as int))
                }).contains(t) by {
                    let k = choose|k: int| 0 <= k < es.take(j + 1).len() && !es.take(j + 1)[k].resolved && #[trigger] es.take(j + 1)[k].target@ == t;
                    if k < j {
                        assert(es.take(j as int)[k] == es[k]);
                    }
                }
                assert forall|t: Seq<char>| #[trigger] dangling_targets(es.take(j as int)).contains(t) implies dangling_targets(es.take(j + 1)).contains(t) by {
                    let k = choose|k: int| 0 <= k < es.take(j as int).len() && !es.take(j as int)[k].resolved && #[trigger] es.take(j as int)[k].target@ == t;
                    assert(es.take(j + 1)[k] == es[k]);
                }
                if !es[j as int].resolved {
                    assert(es.take(j + 1)[j as int] == es[j as int]);
                }
            }
        }
        j = j + 1;
    }
    assert(export.edges@.take(export.edges@.len() as int) =~= export.edges@);
    let ghost h1 = o@;
    let mut k: usize = 0;
    while k < dangling.len()
        invariant
            k <= dangling@.len(),
            o@ == h1 + dot_danglings(crate::text::views(dangling@).take(k as int)),
        decreases dangling@.len() - k,
    {
        let t = string_of(dangling[k].as_slice());
        let et = escape_dot(t.as_str());
        o.append("  \"");
        o.append(et.as_str());
        o.append("\" [label=\"");
        o.append(et.as_str());
        o.append("\", style=dashed];\n");
        proof {
            let tv = crate::text::views(dangling@);
            assert(tv.take(k + 1).drop_last() =~= tv.take(k as int));
            assert(tv.take(k + 1).last() == t@);
            assert(o@ =~= h1 + dot_danglings(tv.take(k + 1)));
        }
        k = k + 1;
    }
    assert(crate::text::views(dangling@).take(dangling@.len() as int) =~= crate::text::views(dangling@));
    let ghost h2 = o@;
    let mut e: usize = 0;
    while e < export.edges.len()
        invariant
            e <= export.edges@.len(),
            o@ == h2 + dot_edges(export.edges@.take(e as int)),
        decreases export.edges@.len() - e,
    {
        let ed = &export.edges[e];
        let line = dot_edge_text(ed);
        o.append(line.as_str());
        proof {
            assert(export.edges@.take(e + 1).drop_last() =~= export.edges@.take(e as int));
            assert(o@ =~= h2 + dot_edges(export.edges@.take(e + 1)));
        }
        e = e + 1;
    }
    assert(export.edges@.take(export.edges@.len() as int) =~= export.edges@);
    o.append("}\n");
    proof {
        let ts = crate::text::views(dangling@);
        assert(o@ =~= dot_text(export.nodes@, ts, export.edges@));
    }
    o
}

/// Where a graph query reads its index.
pub struct GraphOptions {
    pub path: Option<String>,
}

/// The wiki root a graph query names: the given path, or `docs`.
pub open spec fn graph_root_of(options: GraphOptions) -> Seq<char> {
    match options.path {
        Some(p) => p@,
        None => "docs"@,
    }
}

/// The wiki root of a graph query, checked against what the filesystem
/// reports about it (whether it exists and is a directory).
pub fn graph_root(options: &GraphOptions, exists: bool, is_dir: bool) -> (r: Result<String, GraphError>)
    ensures
        match crate::shared::root_error("graph"@, graph_root_of(*options), exists, is_dir) {
            Some(m) => r matches Err(e) && e is Invalid && error_text(e) == m,
            None => r matches Ok(p) && p@ == graph_root_of(*options),
        },
{
    let raw: String = match &options.path {
        Some(p) => p.clone(),
        None => String::from_str("docs"),
    };
    match crate::shared::check_root("graph", raw.as_str(), exists, is_dir) {
        Ok(()) => Ok(raw),
        Err(m) => Err(GraphError::Invalid(m)),
    }
}

} // verus!
