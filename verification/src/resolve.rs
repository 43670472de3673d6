//! The relationship graph resolver: selects a node subset for a query
//! (an optional seed persona plus optional tag and group filters) and
//! synthesizes edges from shared tags, shared groups, and persona-to-
//! group affinity.

use vstd::prelude::*;

use crate::fragment::{
    spec_cat_label, spec_source_label, Category, Fragment, FragmentV,
};
use crate::registry::{str_vec_contains, Registry};
use crate::strutil::{clone_opt_string, clone_strings, str_eq_exec, str_lt};

verus! {

use vstd::string::StringExecFns;
use vstd::string::StrSliceExecFns;

/// A graph query: an optional seed persona, optional tag and group
/// filters, and whether edges should be computed.
#[derive(Debug, Clone)]
pub struct ResolveParams {
    pub persona: Option<String>,
    pub tags: Vec<String>,
    pub groups: Vec<String>,
    pub include_edges: Option<bool>,
}

/// Mathematical image of a query.
pub struct ResolveParamsV {
    pub persona: Option<Seq<char>>,
    pub tags: Seq<Seq<char>>,
    pub groups: Seq<Seq<char>>,
    pub include_edges: Option<bool>,
}

impl View for ResolveParams {
    type V = ResolveParamsV;

    open spec fn view(&self) -> ResolveParamsV {
        ResolveParamsV {
            persona: self.persona.deep_view(),
            tags: self.tags.deep_view(),
            groups: self.groups.deep_view(),
            include_edges: self.include_edges,
        }
    }
}

/// A projection of one fragment into the graph.
#[derive(Debug, Clone)]
pub struct Node {
    pub id: String,
    pub category: String,
    pub name: String,
    pub description: String,
    pub tags: Vec<String>,
    pub level: Option<String>,
    pub skill_groups: Vec<String>,
    pub group: Option<String>,
    pub source: String,
}

/// Mathematical image of a node.
pub struct NodeV {
    pub id: Seq<char>,
    pub category: Seq<char>,
    pub name: Seq<char>,
    pub description: Seq<char>,
    pub tags: Seq<Seq<char>>,
    pub level: Option<Seq<char>>,
    pub skill_groups: Seq<Seq<char>>,
    pub group: Option<Seq<char>>,
    pub source: Seq<char>,
}

impl View for Node {
    type V = NodeV;

    open spec fn view(&self) -> NodeV {
        NodeV {
            id: self.id@,
            category: self.category@,
            name: self.name@,
            description: self.description@,
            tags: self.tags.deep_view(),
            level: self.level.deep_view(),
            skill_groups: self.skill_groups.deep_view(),
            group: self.group.deep_view(),
            source: self.source@,
        }
    }
}

impl DeepView for Node {
    type V = NodeV;

    open spec fn deep_view(&self) -> NodeV {
        self.view()
    }
}

/// An unordered relationship between two nodes, with the tag or group
/// name that produced it.
#[derive(Debug, Clone)]
pub struct Edge {
    pub from: String,
    pub to: String,
    pub relation: String,
    pub label: String,
}

/// Mathematical image of an edge.
pub struct EdgeV {
    pub from: Seq<char>,
    pub to: Seq<char>,
    pub relation: Seq<char>,
    pub label: Seq<char>,
}

impl View for Edge {
    type V = EdgeV;

    open spec fn view(&self) -> EdgeV {
        EdgeV { from: self.from@, to: self.to@, relation: self.relation@, label: self.label@ }
    }
}

impl DeepView for Edge {
    type V = EdgeV;

    open spec fn deep_view(&self) -> EdgeV {
        self.view()
    }
}

/// What a query resolved to: the seed, the filters actually applied,
/// and the result sizes.
#[derive(Debug, Clone)]
pub struct ResolveMeta {
    pub seed: Option<String>,
    pub resolved_groups: Vec<String>,
    pub resolved_tags: Vec<String>,
    pub node_count: usize,
    pub edge_count: usize,
}

/// Mathematical image of the metadata.
pub struct ResolveMetaV {
    pub seed: Option<Seq<char>>,
    pub resolved_groups: Seq<Seq<char>>,
    pub resolved_tags: Seq<Seq<char>>,
    pub node_count: int,
    pub edge_count: int,
}

impl View for ResolveMeta {
    type V = ResolveMetaV;

    open spec fn view(&self) -> ResolveMetaV {
        ResolveMetaV {
            seed: self.seed.deep_view(),
            resolved_groups: self.resolved_groups.deep_view(),
            resolved_tags: self.resolved_tags.deep_view(),
            node_count: self.node_count as int,
            edge_count: self.edge_count as int,
        }
    }
}

/// The resolved graph.
#[derive(Debug)]
pub struct ResolveResult {
    pub nodes: Vec<Node>,
    pub edges: Vec<Edge>,
    pub meta: ResolveMeta,
}

// ---------------------------------------------------------------------------
// Node identity
// ---------------------------------------------------------------------------

/// A node's id: the category label, a colon, and the fragment name.
pub open spec fn node_id_of(c: Category, name: Seq<char>) -> Seq<char> {
    spec_cat_label(c) + ":"@ + name
}

/// The category labels contain no colon and name their category.
proof fn lemma_labels_colon_free()
    ensures
        forall|c: Category, j: int|
            0 <= j < spec_cat_label(c).len() ==> #[trigger] spec_cat_label(c)[j] != ':',
        forall|c1: Category, c2: Category|
            spec_cat_label(c1) == spec_cat_label(c2) ==> c1 == c2,
{
    reveal_strlit("persona");
    reveal_strlit("skill");
    reveal_strlit("context");
    reveal_strlit("tone");
    reveal_strlit("constraint");
    assert("persona"@.len() == 7);
    assert("skill"@.len() == 5);
    assert("context"@.len() == 7);
    assert("tone"@.len() == 4);
    assert("constraint"@.len() == 10);
    assert forall|c: Category, j: int|
        0 <= j < spec_cat_label(c).len() implies #[trigger] spec_cat_label(c)[j] != ':' by {
        match c {
            Category::Persona => {}
            Category::Skill => {}
            Category::Context => {}
            Category::Tone => {}
            Category::Constraint => {}
        }
    }
    assert forall|c1: Category, c2: Category|
        spec_cat_label(c1) == spec_cat_label(c2) implies c1 == c2 by {
        assert("persona"@ != "context"@) by {
            assert("persona"@[0] == 'p' && "context"@[0] == 'c');
        }
    }
}

/// Indexing into a node id, by region.
proof fn lemma_node_id_index(c: Category, n: Seq<char>)
    ensures
        node_id_of(c, n).len() == spec_cat_label(c).len() + 1 + n.len(),
        forall|j: int|
            0 <= j < spec_cat_label(c).len() ==> #[trigger] node_id_of(c, n)[j] == spec_cat_label(
                c,
            )[j],
        node_id_of(c, n)[spec_cat_label(c).len() as int] == ':',
        forall|j: int|
            0 <= j < n.len() ==> #[trigger] node_id_of(c, n)[spec_cat_label(c).len() + 1 + j]
                == n[j],
{
    reveal_strlit(":");
    let a = spec_cat_label(c);
    let head = a + ":"@;
    assert(head.len() == a.len() + 1);
    assert forall|j: int| 0 <= j < a.len() implies #[trigger] node_id_of(c, n)[j] == a[j] by {
        assert(node_id_of(c, n)[j] == head[j]);
        assert(head[j] == a[j]);
    }
    assert(node_id_of(c, n)[a.len() as int] == head[a.len() as int]);
    assert(head[a.len() as int] == ":"@[0]);
    assert forall|j: int|
        0 <= j < n.len() implies #[trigger] node_id_of(c, n)[a.len() + 1 + j] == n[j] by {
        assert(node_id_of(c, n)[a.len() + 1 + j] == n[a.len() + 1 + j - head.len()]);
    }
}

/// Law: node ids are injective over (category, name).
pub proof fn lemma_node_id_injective(c1: Category, n1: Seq<char>, c2: Category, n2: Seq<char>)
    ensures
        node_id_of(c1, n1) == node_id_of(c2, n2) ==> (c1 == c2 && n1 == n2),
{
    lemma_labels_colon_free();
    lemma_node_id_index(c1, n1);
    lemma_node_id_index(c2, n2);
    if node_id_of(c1, n1) == node_id_of(c2, n2) {
        let id = node_id_of(c1, n1);
        let a1 = spec_cat_label(c1);
        let a2 = spec_cat_label(c2);
        let l1 = a1.len() as int;
        let l2 = a2.len() as int;
        assert(l1 == l2) by {
            if l1 < l2 {
                assert(id[l1] == a2[l1]);
                assert(id[l1] == ':');
            }
            if l2 < l1 {
                assert(id[l2] == a1[l2]);
                assert(id[l2] == ':');
            }
        }
        assert(a1 =~= a2) by {
            assert forall|j: int| 0 <= j < l1 implies a1[j] == a2[j] by {
                assert(id[j] == a1[j]);
                assert(id[j] == a2[j]);
            }
        }
        assert(c1 == c2);
        assert(n1 =~= n2) by {
            assert(n1.len() == n2.len());
            assert forall|j: int| 0 <= j < n1.len() implies n1[j] == n2[j] by {
                assert(id[l1 + 1 + j] == n1[j]);
                assert(id[l2 + 1 + j] == n2[j]);
            }
        }
    }
}

/// Builds a node's id string.
fn node_id(category: &Category, name: &str) -> (r: String)
    ensures
        r@ == node_id_of(*category, name@),
{
    let mut id = String::from_str(category.label());
    id.append(":");
    id.append(name);
    id
}

/// The node projection of a fragment.
pub open spec fn spec_node_of(f: FragmentV) -> NodeV {
    NodeV {
        id: node_id_of(f.category, f.name),
        category: spec_cat_label(f.category),
        name: f.name,
        description: f.description,
        tags: f.tags,
        level: f.level,
        skill_groups: f.skill_groups,
        group: f.group,
        source: spec_source_label(f.source),
    }
}

/// Projects a fragment into a graph node.
pub fn fragment_to_node(f: &Fragment) -> (n: Node)
    ensures
        n@ == spec_node_of(f@),
{
    Node {
        id: node_id(&f.category, f.name.as_str()),
        category: String::from_str(f.category.label()),
        name: f.name.clone(),
        description: f.description.clone(),
        tags: clone_strings(&f.tags),
        level: clone_opt_string(&f.level),
        skill_groups: clone_strings(&f.skill_groups),
        group: clone_opt_string(&f.group),
        source: String::from_str(f.source.label()),
    }
}

// ---------------------------------------------------------------------------
// Node order
// ---------------------------------------------------------------------------

/// The selection order of categories: persona, skills, contexts, tones,
/// constraints.
pub open spec fn label_rank(s: Seq<char>) -> int {
    if s == "persona"@ {
        0
    } else if s == "skill"@ {
        1
    } else if s == "context"@ {
        2
    } else if s == "tone"@ {
        3
    } else {
        4
    }
}

/// The selection rank of a category.
pub open spec fn resolve_rank(c: Category) -> int {
    match c {
        Category::Persona => 0,
        Category::Skill => 1,
        Category::Context => 2,
        Category::Tone => 3,
        Category::Constraint => 4,
    }
}

/// The node list's order: by category selection rank, then by name.
pub open spec fn node_lt(a: NodeV, b: NodeV) -> bool {
    label_rank(a.category) < label_rank(b.category) || (label_rank(a.category) == label_rank(
        b.category,
    ) && str_lt(a.name, b.name))
}

/// A projected node's label rank is its category's selection rank.
proof fn lemma_label_rank_of_category()
    ensures
        forall|c: Category| label_rank(spec_cat_label(c)) == resolve_rank(c),
{
    reveal_strlit("persona");
    reveal_strlit("skill");
    reveal_strlit("context");
    reveal_strlit("tone");
    reveal_strlit("constraint");
    assert forall|c: Category| label_rank(spec_cat_label(c)) == resolve_rank(c) by {
        assert("persona"@.len() == 7 && "skill"@.len() == 5 && "context"@.len() == 7 && "tone"@.len()
            == 4 && "constraint"@.len() == 10);
        assert("context"@[0] == 'c' && "persona"@[0] == 'p');
        match c {
            Category::Persona => {}
            Category::Skill => {}
            Category::Context => {}
            Category::Tone => {}
            Category::Constraint => {}
        }
    }
}

// ---------------------------------------------------------------------------
// Edge synthesis
// ---------------------------------------------------------------------------

/// How many of the nodes carry the tag `t`.
pub open spec fn tag_count(ns: Seq<NodeV>, t: Seq<char>) -> nat
    decreases ns.len(),
{
    if ns.len() == 0 {
        0
    } else {
        tag_count(ns.drop_last(), t) + (if ns.last().tags.contains(t) {
            1nat
        } else {
            0nat
        })
    }
}

/// A common tag: carried by more than half of the nodes. Common tags
/// produce no edges.
pub open spec fn common_tag(ns: Seq<NodeV>, t: Seq<char>) -> bool {
    tag_count(ns, t) > ns.len() as int / 2
}

/// A persona-to-skill affinity: the persona's `skill_groups` entry at
/// `l` equals the skill's group.
pub open spec fn sg_cond(ns: Seq<NodeV>, i: int, l: int, j: int) -> bool {
    &&& 0 <= i < ns.len()
    &&& 0 <= j < ns.len()
    &&& 0 <= l < ns[i].skill_groups.len()
    &&& ns[i].category == "persona"@
    &&& ns[j].category == "skill"@
    &&& ns[j].group == Some(ns[i].skill_groups[l])
}

pub open spec fn sg_edge(ns: Seq<NodeV>, i: int, l: int, j: int) -> EdgeV {
    EdgeV {
        from: ns[i].id,
        to: ns[j].id,
        relation: "skill_group"@,
        label: ns[i].skill_groups[l],
    }
}

/// Two skills (in index order) sharing the group `g`.
pub open spec fn grp_cond(ns: Seq<NodeV>, i: int, j: int, g: Seq<char>) -> bool {
    &&& 0 <= i < j < ns.len()
    &&& ns[i].category == "skill"@
    &&& ns[j].category == "skill"@
    &&& ns[i].group == Some(g)
    &&& ns[j].group == Some(g)
}

pub open spec fn grp_edge(ns: Seq<NodeV>, i: int, j: int, g: Seq<char>) -> EdgeV {
    EdgeV { from: ns[i].id, to: ns[j].id, relation: "group"@, label: g }
}

/// Two nodes (in index order) sharing the non-common tag at the first
/// occurrence position `l` of node `i`'s tag list.
pub open spec fn tag_cond(ns: Seq<NodeV>, i: int, l: int, j: int) -> bool {
    &&& 0 <= i < j < ns.len()
    &&& 0 <= l < ns[i].tags.len()
    &&& forall|l2: int| 0 <= l2 < l ==> ns[i].tags[l2] != ns[i].tags[l]
    &&& ns[j].tags.contains(ns[i].tags[l])
    &&& !common_tag(ns, ns[i].tags[l])
}

pub open spec fn tag_edge(ns: Seq<NodeV>, i: int, l: int, j: int) -> EdgeV {
    EdgeV { from: ns[i].id, to: ns[j].id, relation: "tag"@, label: ns[i].tags[l] }
}

/// `e` is an affinity edge of the node list.
pub open spec fn is_sg_edge(ns: Seq<NodeV>, e: EdgeV) -> bool {
    exists|i: int, l: int, j: int| sg_cond(ns, i, l, j) && e == #[trigger] sg_edge(ns, i, l, j)
}

/// `e` is a shared-group edge of the node list.
pub open spec fn is_grp_edge(ns: Seq<NodeV>, e: EdgeV) -> bool {
    exists|i: int, j: int, g: Seq<char>|
        grp_cond(ns, i, j, g) && e == #[trigger] grp_edge(ns, i, j, g)
}

/// `e` is a shared-tag edge of the node list.
pub open spec fn is_tag_edge(ns: Seq<NodeV>, e: EdgeV) -> bool {
    exists|i: int, l: int, j: int| tag_cond(ns, i, l, j) && e == #[trigger] tag_edge(ns, i, l, j)
}

/// Every edge is produced by one of the three rules.
pub open spec fn edge_witnessed(ns: Seq<NodeV>, e: EdgeV) -> bool {
    is_sg_edge(ns, e) || is_grp_edge(ns, e) || is_tag_edge(ns, e)
}

/// Law: a common tag produces no tag edges.
pub proof fn lemma_common_tag_no_edges(ns: Seq<NodeV>, edges: Seq<EdgeV>, t: Seq<char>)
    requires
        forall|k: int| 0 <= k < edges.len() ==> edge_witnessed(ns, #[trigger] edges[k]),
        common_tag(ns, t),
    ensures
        forall|k: int|
            0 <= k < edges.len() && #[trigger] edges[k].relation == "tag"@ ==> edges[k].label != t,
{
    reveal_strlit("skill_group");
    reveal_strlit("group");
    reveal_strlit("tag");
    assert("skill_group"@.len() == 11 && "group"@.len() == 5 && "tag"@.len() == 3);
    assert forall|k: int|
        0 <= k < edges.len() && #[trigger] edges[k].relation == "tag"@ implies edges[k].label
        != t by {
        let e = edges[k];
        assert(edge_witnessed(ns, e));
        if exists|i: int, l: int, j: int| tag_cond(ns, i, l, j) && e == #[trigger] tag_edge(
            ns,
            i,
            l,
            j,
        ) {
            let (i, l, j) = choose|i: int, l: int, j: int|
                tag_cond(ns, i, l, j) && e == #[trigger] tag_edge(ns, i, l, j);
            assert(!common_tag(ns, ns[i].tags[l]));
        }
    }
}

proof fn lemma_push_contains(s: Seq<EdgeV>, x: EdgeV)
    ensures
        forall|e: EdgeV| s.contains(e) ==> #[trigger] s.push(x).contains(e),
        s.push(x).contains(x),
        forall|e: EdgeV| #[trigger] s.push(x).contains(e) ==> s.contains(e) || e == x,
{
    assert(s.push(x)[s.len() as int] == x);
    assert forall|e: EdgeV| s.contains(e) implies #[trigger] s.push(x).contains(e) by {
        let i = choose|i: int| 0 <= i < s.len() && s[i] == e;
        assert(s.push(x)[i] == e);
    }
    assert forall|e: EdgeV| #[trigger] s.push(x).contains(e) implies s.contains(e) || e == x by {
        let i = choose|i: int| 0 <= i < s.push(x).len() && s.push(x)[i] == e;
        if i < s.len() {
            assert(s[i] == e);
        }
    }
}

/// Counts the nodes carrying the given tag.
fn count_nodes_with_tag(nodes: &Vec<Node>, t: &str) -> (r: usize)
    ensures
        r == tag_count(nodes.deep_view(), t@),
{
    let ghost ns = nodes.deep_view();
    let mut r: usize = 0;
    let mut i: usize = 0;
    while i < nodes.len()
        invariant
            0 <= i <= nodes.len(),
            ns == nodes.deep_view(),
            ns.len() == nodes@.len(),
            forall|j: int| 0 <= j < ns.len() ==> ns[j] == nodes@[j]@,
            r <= i,
            r == tag_count(ns.take(i as int), t@),
        decreases nodes.len() - i,
    {
        proof {
            assert(ns.take(i + 1).drop_last() =~= ns.take(i as int));
            assert(ns.take(i + 1).last() == ns[i as int]);
        }
        if str_vec_contains(&nodes[i].tags, t) {
            r = r + 1;
        }
        i = i + 1;
    }
    proof {
        assert(ns.take(ns.len() as int) =~= ns);
    }
    r
}

/// Strict lexicographic order on index pairs.
pub open spec fn lex2_lt(a: (int, int), b: (int, int)) -> bool {
    a.0 < b.0 || (a.0 == b.0 && a.1 < b.1)
}

/// Strict lexicographic order on index triples.
pub open spec fn lex3_lt(a: (int, int, int), b: (int, int, int)) -> bool {
    a.0 < b.0 || (a.0 == b.0 && (a.1 < b.1 || (a.1 == b.1 && a.2 < b.2)))
}

/// All affinity edges before the given position have been emitted.
pub open spec fn sg_done_upto(ns: Seq<NodeV>, edv: Seq<EdgeV>, p: (int, int, int)) -> bool {
    forall|i: int, l: int, j: int|
        sg_cond(ns, i, l, j) && lex3_lt((i, l, j), p) ==> edv.contains(
            #[trigger] sg_edge(ns, i, l, j),
        )
}

/// All group edges before the given position have been emitted.
pub open spec fn grp_done_upto(ns: Seq<NodeV>, edv: Seq<EdgeV>, p: (int, int)) -> bool {
    forall|i: int, j: int, g: Seq<char>|
        grp_cond(ns, i, j, g) && lex2_lt((i, j), p) ==> edv.contains(
            #[trigger] grp_edge(ns, i, j, g),
        )
}

/// All tag edges before the given position have been emitted.
pub open spec fn tag_done_upto(ns: Seq<NodeV>, edv: Seq<EdgeV>, p: (int, int, int)) -> bool {
    forall|i: int, l: int, j: int|
        tag_cond(ns, i, l, j) && lex3_lt((i, l, j), p) ==> edv.contains(
            #[trigger] tag_edge(ns, i, l, j),
        )
}

/// Is position `idx` the first occurrence of its tag in the list?
fn is_first_occurrence(tags: &Vec<String>, idx: usize) -> (r: bool)
    requires
        idx < tags.deep_view().len(),
    ensures
        r == forall|l2: int|
            0 <= l2 < idx ==> tags.deep_view()[l2] != tags.deep_view()[idx as int],
{
    let ghost ts = tags.deep_view();
    let mut l: usize = 0;
    while l < idx
        invariant
            0 <= l <= idx,
            idx < ts.len(),
            ts == tags.deep_view(),
            ts.len() == tags@.len(),
            forall|j: int| 0 <= j < ts.len() ==> ts[j] == tags@[j]@,
            forall|l2: int| 0 <= l2 < l ==> ts[l2] != ts[idx as int],
        decreases idx - l,
    {
        if str_eq_exec(tags[l].as_str(), tags[idx].as_str()) {
            proof {
                assert(ts[l as int] == ts[idx as int]);
            }
            return false;
        }
        l = l + 1;
    }
    true
}

/// Emits the persona-to-skill affinity edges, in position order.
fn push_sg_edges(edges: &mut Vec<Edge>, nodes: &Vec<Node>)
    ensures
        final(edges)@.len() >= old(edges)@.len(),
        forall|k: int|
            0 <= k < old(edges)@.len() ==> final(edges).deep_view()[k] == old(
                edges,
            ).deep_view()[k],
        forall|k: int|
            old(edges)@.len() <= k < final(edges)@.len() ==> #[trigger] is_sg_edge(
                nodes.deep_view(),
                final(edges).deep_view()[k],
            ),
        sg_done_upto(
            nodes.deep_view(),
            final(edges).deep_view(),
            (nodes.deep_view().len() as int, 0, 0),
        ),
{
    let ghost ns = nodes.deep_view();
    let ghost base = old(edges)@.len() as int;
    let n = nodes.len();
    let mut i: usize = 0;
    while i < n
        invariant
            0 <= i <= n,
            ns == nodes.deep_view(),
            n == nodes@.len(),
            ns.len() == n,
            forall|z: int| 0 <= z < ns.len() ==> ns[z] == nodes@[z]@,
            base == old(edges)@.len(),
            base <= edges@.len(),
            forall|k: int|
                0 <= k < base ==> edges.deep_view()[k] == old(edges).deep_view()[k],
            forall|k: int|
                base <= k < edges@.len() ==> #[trigger] is_sg_edge(ns, edges.deep_view()[k]),
            sg_done_upto(ns, edges.deep_view(), (i as int, 0, 0)),
        decreases n - i,
    {
        if str_eq_exec(nodes[i].category.as_str(), "persona") {
            let mut l: usize = 0;
            while l < nodes[i].skill_groups.len()
                invariant
                    0 <= i < n,
                    0 <= l <= nodes@[i as int].skill_groups@.len(),
                    ns == nodes.deep_view(),
                    n == nodes@.len(),
                    ns.len() == n,
                    forall|z: int| 0 <= z < ns.len() ==> ns[z] == nodes@[z]@,
                    ns[i as int].category == "persona"@,
                    ns[i as int].skill_groups.len() == nodes@[i as int].skill_groups@.len(),
                    base == old(edges)@.len(),
            base <= edges@.len(),
                    forall|k: int|
                        0 <= k < base ==> edges.deep_view()[k] == old(edges).deep_view()[k],
                    forall|k: int|
                        base <= k < edges@.len() ==> #[trigger] is_sg_edge(
                            ns,
                            edges.deep_view()[k],
                        ),
                    sg_done_upto(ns, edges.deep_view(), (i as int, l as int, 0)),
                decreases nodes@[i as int].skill_groups@.len() - l,
            {
                let mut j: usize = 0;
                while j < n
                    invariant
                        0 <= i < n,
                        0 <= l < nodes@[i as int].skill_groups@.len(),
                        0 <= j <= n,
                        ns == nodes.deep_view(),
                        n == nodes@.len(),
                        ns.len() == n,
                        forall|z: int| 0 <= z < ns.len() ==> ns[z] == nodes@[z]@,
                        ns[i as int].category == "persona"@,
                        ns[i as int].skill_groups.len() == nodes@[i as int].skill_groups@.len(),
                        base == old(edges)@.len(),
            base <= edges@.len(),
                        forall|k: int|
                            0 <= k < base ==> edges.deep_view()[k] == old(edges).deep_view()[k],
                        forall|k: int|
                            base <= k < edges@.len() ==> #[trigger] is_sg_edge(
                                ns,
                                edges.deep_view()[k],
                            ),
                        sg_done_upto(ns, edges.deep_view(), (i as int, l as int, j as int)),
                    decreases n - j,
                {
                    let is_skill = str_eq_exec(nodes[j].category.as_str(), "skill");
                    let group_matches = match &nodes[j].group {
                        Some(g) => str_eq_exec(g.as_str(), nodes[i].skill_groups[l].as_str()),
                        None => false,
                    };
                    if is_skill && group_matches {
                        let ghost before = edges.deep_view();
                        let ghost pre = edges@;
                        let ghost x = sg_edge(ns, i as int, l as int, j as int);
                        let e = Edge {
                            from: nodes[i].id.clone(),
                            to: nodes[j].id.clone(),
                            relation: String::from_str("skill_group"),
                            label: nodes[i].skill_groups[l].clone(),
                        };
                        proof {
                            assert(sg_cond(ns, i as int, l as int, j as int));
                            assert(e@ == x);
                        }
                        edges.push(e);
                        proof {
                            let ndv = edges.deep_view();
                            assert forall|z: int|
                                0 <= z < ndv.len() implies ndv[z] == before.push(x)[z] by {
                                if z < before.len() {
                                    assert(edges@[z] == pre[z]);
                                }
                            }
                            assert(ndv =~= before.push(x));
                            lemma_push_contains(before, x);
                            assert(is_sg_edge(ns, x));
                            assert forall|k: int|
                                base <= k < edges@.len() implies #[trigger] is_sg_edge(
                                ns,
                                edges.deep_view()[k],
                            ) by {
                                if k < before.len() {
                                    assert(edges.deep_view()[k] == before[k]);
                                } else {
                                    assert(edges.deep_view()[k] == x);
                                }
                            }
                            assert forall|i2: int, l2: int, j2: int|
                                sg_cond(ns, i2, l2, j2) && lex3_lt(
                                    (i2, l2, j2),
                                    (i as int, l as int, j + 1),
                                ) implies edges.deep_view().contains(
                                #[trigger] sg_edge(ns, i2, l2, j2),
                            ) by {
                                if lex3_lt((i2, l2, j2), (i as int, l as int, j as int)) {
                                    assert(before.contains(sg_edge(ns, i2, l2, j2)));
                                } else {
                                    assert((i2, l2, j2) == (i as int, l as int, j as int));
                                }
                            }
                        }
                    } else {
                        proof {
                            assert forall|i2: int, l2: int, j2: int|
                                sg_cond(ns, i2, l2, j2) && lex3_lt(
                                    (i2, l2, j2),
                                    (i as int, l as int, j + 1),
                                ) implies edges.deep_view().contains(
                                #[trigger] sg_edge(ns, i2, l2, j2),
                            ) by {
                                if !lex3_lt((i2, l2, j2), (i as int, l as int, j as int)) {
                                    assert((i2, l2, j2) == (i as int, l as int, j as int));
                                    assert(false);
                                }
                            }
                        }
                    }
                    j = j + 1;
                }
                proof {
                    assert forall|i2: int, l2: int, j2: int|
                        sg_cond(ns, i2, l2, j2) && lex3_lt(
                            (i2, l2, j2),
                            (i as int, l + 1, 0),
                        ) implies edges.deep_view().contains(
                        #[trigger] sg_edge(ns, i2, l2, j2),
                    ) by {
                        assert(lex3_lt((i2, l2, j2), (i as int, l as int, n as int)));
                    }
                }
                l = l + 1;
            }
            proof {
                let ghost sgl = ns[i as int].skill_groups.len() as int;
                assert forall|i2: int, l2: int, j2: int|
                    sg_cond(ns, i2, l2, j2) && lex3_lt(
                        (i2, l2, j2),
                        (i + 1, 0, 0),
                    ) implies edges.deep_view().contains(#[trigger] sg_edge(ns, i2, l2, j2)) by {
                    assert(lex3_lt((i2, l2, j2), (i as int, sgl, 0)));
                }
            }
        } else {
            proof {
                assert forall|i2: int, l2: int, j2: int|
                    sg_cond(ns, i2, l2, j2) && lex3_lt(
                        (i2, l2, j2),
                        (i + 1, 0, 0),
                    ) implies edges.deep_view().contains(#[trigger] sg_edge(ns, i2, l2, j2)) by {
                    assert(i2 < i);
                }
            }
        }
        i = i + 1;
    }
}

/// The edge at `e` is the group edge of the index pair `w`.
pub open spec fn grp_at(ns: Seq<NodeV>, e: EdgeV, w: (int, int)) -> bool {
    grp_cond(ns, w.0, w.1, e.label) && e == grp_edge(ns, w.0, w.1, e.label)
}

/// Emits the shared-group edges among skill nodes, in index-pair order.
fn push_grp_edges(edges: &mut Vec<Edge>, nodes: &Vec<Node>)
    requires
        forall|p: int, q: int|
            0 <= p < q < nodes.deep_view().len() ==> nodes.deep_view()[p].id
                != nodes.deep_view()[q].id,
    ensures
        final(edges)@.len() >= old(edges)@.len(),
        forall|k: int|
            0 <= k < old(edges)@.len() ==> final(edges).deep_view()[k] == old(
                edges,
            ).deep_view()[k],
        forall|k: int|
            old(edges)@.len() <= k < final(edges)@.len() ==> #[trigger] is_grp_edge(
                nodes.deep_view(),
                final(edges).deep_view()[k],
            ),
        grp_done_upto(
            nodes.deep_view(),
            final(edges).deep_view(),
            (nodes.deep_view().len() as int, 0),
        ),
        forall|k1: int, k2: int|
            old(edges)@.len() <= k1 < k2 < final(edges)@.len() ==> final(edges).deep_view()[k1]
                != final(edges).deep_view()[k2],
{
    let ghost ns = nodes.deep_view();
    let ghost base = old(edges)@.len() as int;
    let ghost mut wit: Seq<(int, int)> = Seq::empty();
    let n = nodes.len();
    let mut i: usize = 0;
    while i < n
        invariant
            0 <= i <= n,
            ns == nodes.deep_view(),
            n == nodes@.len(),
            ns.len() == n,
            forall|z: int| 0 <= z < ns.len() ==> ns[z] == nodes@[z]@,
            forall|p: int, q: int| 0 <= p < q < ns.len() ==> ns[p].id != ns[q].id,
            base == old(edges)@.len(),
            base <= edges@.len(),
            forall|k: int| 0 <= k < base ==> edges.deep_view()[k] == old(edges).deep_view()[k],
            wit.len() == edges@.len() - base,
            forall|k: int|
                0 <= k < wit.len() ==> grp_at(ns, edges.deep_view()[base + k], #[trigger] wit[k]),
            forall|k1: int, k2: int| 0 <= k1 < k2 < wit.len() ==> lex2_lt(wit[k1], wit[k2]),
            forall|k: int| 0 <= k < wit.len() ==> lex2_lt(#[trigger] wit[k], (i as int, 0)),
            grp_done_upto(ns, edges.deep_view(), (i as int, 0)),
        decreases n - i,
    {
        let is_skill_i = str_eq_exec(nodes[i].category.as_str(), "skill");
        let has_group = match &nodes[i].group {
            Some(_) => true,
            None => false,
        };
        if is_skill_i && has_group {
            let mut j: usize = i + 1;
            while j < n
                invariant
                    0 <= i < n,
                    i < j <= n,
                    ns == nodes.deep_view(),
                    n == nodes@.len(),
                    ns.len() == n,
                    forall|z: int| 0 <= z < ns.len() ==> ns[z] == nodes@[z]@,
                    forall|p: int, q: int| 0 <= p < q < ns.len() ==> ns[p].id != ns[q].id,
                    ns[i as int].category == "skill"@,
                    ns[i as int].group is Some,
                    base == old(edges)@.len(),
                    base <= edges@.len(),
                    forall|k: int|
                        0 <= k < base ==> edges.deep_view()[k] == old(edges).deep_view()[k],
                    wit.len() == edges@.len() - base,
                    forall|k: int|
                        0 <= k < wit.len() ==> grp_at(
                            ns,
                            edges.deep_view()[base + k],
                            #[trigger] wit[k],
                        ),
                    forall|k1: int, k2: int|
                        0 <= k1 < k2 < wit.len() ==> lex2_lt(wit[k1], wit[k2]),
                    forall|k: int|
                        0 <= k < wit.len() ==> lex2_lt(#[trigger] wit[k], (i as int, j as int)),
                    grp_done_upto(ns, edges.deep_view(), (i as int, j as int)),
                decreases n - j,
            {
                let is_skill_j = str_eq_exec(nodes[j].category.as_str(), "skill");
                let same_group = match (&nodes[i].group, &nodes[j].group) {
                    (Some(gi), Some(gj)) => str_eq_exec(gj.as_str(), gi.as_str()),
                    _ => false,
                };
                if is_skill_j && same_group {
                    let ghost before = edges.deep_view();
                    let ghost pre = edges@;
                    let ghost g = ns[i as int].group->0;
                    let ghost x = grp_edge(ns, i as int, j as int, g);
                    let label = match &nodes[i].group {
                        Some(gi) => gi.clone(),
                        None => String::new(),
                    };
                    let e = Edge {
                        from: nodes[i].id.clone(),
                        to: nodes[j].id.clone(),
                        relation: String::from_str("group"),
                        label,
                    };
                    proof {
                        assert(grp_cond(ns, i as int, j as int, g));
                        assert(e@ == x);
                    }
                    edges.push(e);
                    proof {
                        let ndv = edges.deep_view();
                        assert forall|z: int|
                            0 <= z < ndv.len() implies ndv[z] == before.push(x)[z] by {
                            if z < before.len() {
                                assert(edges@[z] == pre[z]);
                            }
                        }
                        assert(ndv =~= before.push(x));
                        lemma_push_contains(before, x);
                        wit = wit.push((i as int, j as int));
                        assert(x.label == g);
                        assert(grp_at(ns, x, (i as int, j as int)));
                        assert forall|k: int|
                            0 <= k < wit.len() implies grp_at(
                            ns,
                            edges.deep_view()[base + k],
                            #[trigger] wit[k],
                        ) by {
                            if k < wit.len() - 1 {
                                assert(wit[k] == wit.drop_last()[k]);
                                assert(edges.deep_view()[base + k] == before[base + k]);
                            } else {
                                assert(wit[k] == (i as int, j as int));
                                assert(edges.deep_view()[base + k] == x);
                            }
                        }
                        assert forall|i2: int, j2: int, g2: Seq<char>|
                            grp_cond(ns, i2, j2, g2) && lex2_lt(
                                (i2, j2),
                                (i as int, j + 1),
                            ) implies edges.deep_view().contains(
                            #[trigger] grp_edge(ns, i2, j2, g2),
                        ) by {
                            if lex2_lt((i2, j2), (i as int, j as int)) {
                                assert(before.contains(grp_edge(ns, i2, j2, g2)));
                            } else {
                                assert(i2 == i as int && j2 == j as int);
                                assert(g2 == g);
                            }
                        }
                    }
                } else {
                    proof {
                        assert forall|i2: int, j2: int, g2: Seq<char>|
                            grp_cond(ns, i2, j2, g2) && lex2_lt(
                                (i2, j2),
                                (i as int, j + 1),
                            ) implies edges.deep_view().contains(
                            #[trigger] grp_edge(ns, i2, j2, g2),
                        ) by {
                            if !lex2_lt((i2, j2), (i as int, j as int)) {
                                assert(i2 == i as int && j2 == j as int);
                                assert(ns[j2].category == "skill"@ && ns[j2].group == Some(g2));
                                assert(ns[i2].group == Some(g2));
                                assert(false);
                            }
                        }
                    }
                }
                j = j + 1;
            }
            proof {
                assert forall|i2: int, j2: int, g2: Seq<char>|
                    grp_cond(ns, i2, j2, g2) && lex2_lt(
                        (i2, j2),
                        (i + 1, 0),
                    ) implies edges.deep_view().contains(#[trigger] grp_edge(ns, i2, j2, g2)) by {
                    assert(lex2_lt((i2, j2), (i as int, n as int)));
                }
            }
        } else {
            proof {
                assert forall|i2: int, j2: int, g2: Seq<char>|
                    grp_cond(ns, i2, j2, g2) && lex2_lt(
                        (i2, j2),
                        (i + 1, 0),
                    ) implies edges.deep_view().contains(#[trigger] grp_edge(ns, i2, j2, g2)) by {
                    if i2 == i as int {
                        assert(ns[i2].category == "skill"@ && ns[i2].group == Some(g2));
                        assert(false);
                    }
                    assert(i2 < i as int);
                }
            }
        }
        i = i + 1;
    }
    proof {
        assert forall|k1: int, k2: int|
            base <= k1 < k2 < edges@.len() implies edges.deep_view()[k1]
            != edges.deep_view()[k2] by {
            let w1 = wit[k1 - base];
            let w2 = wit[k2 - base];
            assert(grp_at(ns, edges.deep_view()[k1], w1));
            assert(grp_at(ns, edges.deep_view()[k2], w2));
            assert(lex2_lt(w1, w2));
            if w1.0 != w2.0 {
                assert(ns[w1.0].id != ns[w2.0].id);
                assert(edges.deep_view()[k1].from != edges.deep_view()[k2].from);
            } else {
                assert(w1.1 < w2.1);
                assert(ns[w1.1].id != ns[w2.1].id);
                assert(edges.deep_view()[k1].to != edges.deep_view()[k2].to);
            }
        }
        assert forall|k: int|
            base <= k < edges@.len() implies #[trigger] is_grp_edge(
            ns,
            edges.deep_view()[k],
        ) by {
            let w = wit[k - base];
            assert(grp_at(ns, edges.deep_view()[k], w));
            assert(grp_cond(ns, w.0, w.1, edges.deep_view()[k].label) && edges.deep_view()[k]
                == grp_edge(ns, w.0, w.1, edges.deep_view()[k].label));
        }
    }
}

/// The edge at `e` is the tag edge of the index triple `w`.
pub open spec fn tag_at(ns: Seq<NodeV>, e: EdgeV, w: (int, int, int)) -> bool {
    tag_cond(ns, w.0, w.1, w.2) && e == tag_edge(ns, w.0, w.1, w.2)
}

/// Emits the shared-tag edges for non-common tags, in index order, one
/// edge per pair per tag.
fn push_tag_edges(edges: &mut Vec<Edge>, nodes: &Vec<Node>)
    requires
        forall|p: int, q: int|
            0 <= p < q < nodes.deep_view().len() ==> nodes.deep_view()[p].id
                != nodes.deep_view()[q].id,
    ensures
        final(edges)@.len() >= old(edges)@.len(),
        forall|k: int|
            0 <= k < old(edges)@.len() ==> final(edges).deep_view()[k] == old(
                edges,
            ).deep_view()[k],
        forall|k: int|
            old(edges)@.len() <= k < final(edges)@.len() ==> #[trigger] is_tag_edge(
                nodes.deep_view(),
                final(edges).deep_view()[k],
            ),
        tag_done_upto(
            nodes.deep_view(),
            final(edges).deep_view(),
            (nodes.deep_view().len() as int, 0, 0),
        ),
        forall|k1: int, k2: int|
            old(edges)@.len() <= k1 < k2 < final(edges)@.len() ==> final(edges).deep_view()[k1]
                != final(edges).deep_view()[k2],
{
    let ghost ns = nodes.deep_view();
    let ghost base = old(edges)@.len() as int;
    let ghost mut wit: Seq<(int, int, int)> = Seq::empty();
    let n = nodes.len();
    let mut i: usize = 0;
    while i < n
        invariant
            0 <= i <= n,
            ns == nodes.deep_view(),
            n == nodes@.len(),
            ns.len() == n,
            forall|z: int| 0 <= z < ns.len() ==> ns[z] == nodes@[z]@,
            forall|p: int, q: int| 0 <= p < q < ns.len() ==> ns[p].id != ns[q].id,
            base == old(edges)@.len(),
            base <= edges@.len(),
            forall|k: int| 0 <= k < base ==> edges.deep_view()[k] == old(edges).deep_view()[k],
            wit.len() == edges@.len() - base,
            forall|k: int|
                0 <= k < wit.len() ==> tag_at(ns, edges.deep_view()[base + k], #[trigger] wit[k]),
            forall|k1: int, k2: int| 0 <= k1 < k2 < wit.len() ==> lex3_lt(wit[k1], wit[k2]),
            forall|k: int| 0 <= k < wit.len() ==> lex3_lt(#[trigger] wit[k], (i as int, 0, 0)),
            tag_done_upto(ns, edges.deep_view(), (i as int, 0, 0)),
        decreases n - i,
    {
        let mut l: usize = 0;
        while l < nodes[i].tags.len()
            invariant
                0 <= i < n,
                0 <= l <= nodes@[i as int].tags@.len(),
                ns == nodes.deep_view(),
                n == nodes@.len(),
                ns.len() == n,
                forall|z: int| 0 <= z < ns.len() ==> ns[z] == nodes@[z]@,
                forall|p: int, q: int| 0 <= p < q < ns.len() ==> ns[p].id != ns[q].id,
                ns[i as int].tags.len() == nodes@[i as int].tags@.len(),
                base == old(edges)@.len(),
                base <= edges@.len(),
                forall|k: int|
                    0 <= k < base ==> edges.deep_view()[k] == old(edges).deep_view()[k],
                wit.len() == edges@.len() - base,
                forall|k: int|
                    0 <= k < wit.len() ==> tag_at(
                        ns,
                        edges.deep_view()[base + k],
                        #[trigger] wit[k],
                    ),
                forall|k1: int, k2: int| 0 <= k1 < k2 < wit.len() ==> lex3_lt(wit[k1], wit[k2]),
                forall|k: int|
                    0 <= k < wit.len() ==> lex3_lt(#[trigger] wit[k], (i as int, l as int, 0)),
                tag_done_upto(ns, edges.deep_view(), (i as int, l as int, 0)),
            decreases nodes@[i as int].tags@.len() - l,
        {
            let first = is_first_occurrence(&nodes[i].tags, l);
            let count = count_nodes_with_tag(nodes, nodes[i].tags[l].as_str());
            let uncommon = !(count > n / 2);
            proof {
                assert(ns[i as int].tags[l as int] == nodes@[i as int].tags@[l as int]@);
                assert(uncommon == !common_tag(ns, ns[i as int].tags[l as int]));
            }
            if first && uncommon {
                let mut j: usize = i + 1;
                while j < n
                    invariant
                        0 <= i < n,
                        0 <= l < nodes@[i as int].tags@.len(),
                        i < j <= n,
                        ns == nodes.deep_view(),
                        n == nodes@.len(),
                        ns.len() == n,
                        forall|z: int| 0 <= z < ns.len() ==> ns[z] == nodes@[z]@,
                        forall|p: int, q: int| 0 <= p < q < ns.len() ==> ns[p].id != ns[q].id,
                        ns[i as int].tags.len() == nodes@[i as int].tags@.len(),
                        forall|l2: int|
                            0 <= l2 < l ==> ns[i as int].tags[l2] != ns[i as int].tags[l as int],
                        !common_tag(ns, ns[i as int].tags[l as int]),
                        base == old(edges)@.len(),
                        base <= edges@.len(),
                        forall|k: int|
                            0 <= k < base ==> edges.deep_view()[k] == old(edges).deep_view()[k],
                        wit.len() == edges@.len() - base,
                        forall|k: int|
                            0 <= k < wit.len() ==> tag_at(
                                ns,
                                edges.deep_view()[base + k],
                                #[trigger] wit[k],
                            ),
                        forall|k1: int, k2: int|
                            0 <= k1 < k2 < wit.len() ==> lex3_lt(wit[k1], wit[k2]),
                        forall|k: int|
                            0 <= k < wit.len() ==> lex3_lt(
                                #[trigger] wit[k],
                                (i as int, l as int, j as int),
                            ),
                        tag_done_upto(ns, edges.deep_view(), (i as int, l as int, j as int)),
                    decreases n - j,
                {
                    if str_vec_contains(&nodes[j].tags, nodes[i].tags[l].as_str()) {
                        let ghost before = edges.deep_view();
                        let ghost pre = edges@;
                        let ghost x = tag_edge(ns, i as int, l as int, j as int);
                        let e = Edge {
                            from: nodes[i].id.clone(),
                            to: nodes[j].id.clone(),
                            relation: String::from_str("tag"),
                            label: nodes[i].tags[l].clone(),
                        };
                        proof {
                            assert(tag_cond(ns, i as int, l as int, j as int));
                            assert(e@ == x);
                        }
                        edges.push(e);
                        proof {
                            let ndv = edges.deep_view();
                            assert forall|z: int|
                                0 <= z < ndv.len() implies ndv[z] == before.push(x)[z] by {
                                if z < before.len() {
                                    assert(edges@[z] == pre[z]);
                                }
                            }
                            assert(ndv =~= before.push(x));
                            lemma_push_contains(before, x);
                            wit = wit.push((i as int, l as int, j as int));
                            assert(tag_at(ns, x, (i as int, l as int, j as int)));
                            assert forall|k: int|
                                0 <= k < wit.len() implies tag_at(
                                ns,
                                edges.deep_view()[base + k],
                                #[trigger] wit[k],
                            ) by {
                                if k < wit.len() - 1 {
                                    assert(wit[k] == wit.drop_last()[k]);
                                    assert(edges.deep_view()[base + k] == before[base + k]);
                                } else {
                                    assert(wit[k] == (i as int, l as int, j as int));
                                    assert(edges.deep_view()[base + k] == x);
                                }
                            }
                            assert forall|i2: int, l2: int, j2: int|
                                tag_cond(ns, i2, l2, j2) && lex3_lt(
                                    (i2, l2, j2),
                                    (i as int, l as int, j + 1),
                                ) implies edges.deep_view().contains(
                                #[trigger] tag_edge(ns, i2, l2, j2),
                            ) by {
                                if lex3_lt((i2, l2, j2), (i as int, l as int, j as int)) {
                                    assert(before.contains(tag_edge(ns, i2, l2, j2)));
                                } else {
                                    assert((i2, l2, j2) == (i as int, l as int, j as int));
                                }
                            }
                        }
                    } else {
                        proof {
                            assert forall|i2: int, l2: int, j2: int|
                                tag_cond(ns, i2, l2, j2) && lex3_lt(
                                    (i2, l2, j2),
                                    (i as int, l as int, j + 1),
                                ) implies edges.deep_view().contains(
                                #[trigger] tag_edge(ns, i2, l2, j2),
                            ) by {
                                if !lex3_lt((i2, l2, j2), (i as int, l as int, j as int)) {
                                    assert((i2, l2, j2) == (i as int, l as int, j as int));
                                    assert(ns[j2].tags.contains(ns[i2].tags[l2]));
                                    assert(false);
                                }
                            }
                        }
                    }
                    j = j + 1;
                }
                proof {
                    assert forall|i2: int, l2: int, j2: int|
                        tag_cond(ns, i2, l2, j2) && lex3_lt(
                            (i2, l2, j2),
                            (i as int, l + 1, 0),
                        ) implies edges.deep_view().contains(
                        #[trigger] tag_edge(ns, i2, l2, j2),
                    ) by {
                        assert(lex3_lt((i2, l2, j2), (i as int, l as int, n as int)));
                    }
                }
            } else {
                proof {
                    assert forall|i2: int, l2: int, j2: int|
                        tag_cond(ns, i2, l2, j2) && lex3_lt(
                            (i2, l2, j2),
                            (i as int, l + 1, 0),
                        ) implies edges.deep_view().contains(
                        #[trigger] tag_edge(ns, i2, l2, j2),
                    ) by {
                        if !lex3_lt((i2, l2, j2), (i as int, l as int, 0)) {
                            assert(i2 == i as int && l2 == l as int);
                            assert(false);
                        }
                    }
                }
            }
            l = l + 1;
        }
        proof {
            let ghost tl = ns[i as int].tags.len() as int;
            assert forall|i2: int, l2: int, j2: int|
                tag_cond(ns, i2, l2, j2) && lex3_lt(
                    (i2, l2, j2),
                    (i + 1, 0, 0),
                ) implies edges.deep_view().contains(#[trigger] tag_edge(ns, i2, l2, j2)) by {
                assert(lex3_lt((i2, l2, j2), (i as int, tl, 0)));
            }
        }
        i = i + 1;
    }
    proof {
        assert forall|k1: int, k2: int|
            base <= k1 < k2 < edges@.len() implies edges.deep_view()[k1]
            != edges.deep_view()[k2] by {
            let w1 = wit[k1 - base];
            let w2 = wit[k2 - base];
            assert(tag_at(ns, edges.deep_view()[k1], w1));
            assert(tag_at(ns, edges.deep_view()[k2], w2));
            assert(lex3_lt(w1, w2));
            if w1.0 != w2.0 {
                assert(ns[w1.0].id != ns[w2.0].id);
                assert(edges.deep_view()[k1].from != edges.deep_view()[k2].from);
            } else if w1.1 != w2.1 {
                assert(w1.1 < w2.1);
                assert(ns[w1.0].tags[w1.1] != ns[w2.0].tags[w2.1]);
                assert(edges.deep_view()[k1].label != edges.deep_view()[k2].label);
            } else {
                assert(w1.2 < w2.2);
                assert(ns[w1.2].id != ns[w2.2].id);
                assert(edges.deep_view()[k1].to != edges.deep_view()[k2].to);
            }
        }
        assert forall|k: int|
            base <= k < edges@.len() implies #[trigger] is_tag_edge(
            ns,
            edges.deep_view()[k],
        ) by {
            let w = wit[k - base];
            assert(tag_at(ns, edges.deep_view()[k], w));
        }
    }
}

/// Computes the edges of a node list: persona-to-skill affinity edges,
/// shared-group edges among skills, and shared-tag edges for non-common
/// tags. Edges from different rules are kept separate records.
pub fn build_edges(nodes: &Vec<Node>) -> (r: Vec<Edge>)
    requires
        forall|p: int, q: int|
            0 <= p < q < nodes.deep_view().len() ==> nodes.deep_view()[p].id
                != nodes.deep_view()[q].id,
    ensures
        forall|k: int|
            0 <= k < r.deep_view().len() ==> edge_witnessed(
                nodes.deep_view(),
                #[trigger] r.deep_view()[k],
            ),
        sg_done_upto(nodes.deep_view(), r.deep_view(), (nodes.deep_view().len() as int, 0, 0)),
        grp_done_upto(nodes.deep_view(), r.deep_view(), (nodes.deep_view().len() as int, 0)),
        tag_done_upto(nodes.deep_view(), r.deep_view(), (nodes.deep_view().len() as int, 0, 0)),
        forall|k1: int, k2: int|
            0 <= k1 < k2 < r.deep_view().len() && r.deep_view()[k1].relation == "group"@
                && r.deep_view()[k2].relation == "group"@ ==> r.deep_view()[k1]
                != r.deep_view()[k2],
        forall|k1: int, k2: int|
            0 <= k1 < k2 < r.deep_view().len() && r.deep_view()[k1].relation == "tag"@
                && r.deep_view()[k2].relation == "tag"@ ==> r.deep_view()[k1] != r.deep_view()[k2],
{
    let ghost ns = nodes.deep_view();
    let mut edges: Vec<Edge> = Vec::new();
    push_sg_edges(&mut edges, nodes);
    let ghost e1 = edges@.len() as int;
    let ghost dv1 = edges.deep_view();
    push_grp_edges(&mut edges, nodes);
    let ghost e2 = edges@.len() as int;
    let ghost dv2 = edges.deep_view();
    push_tag_edges(&mut edges, nodes);
    proof {
        reveal_strlit("skill_group");
        reveal_strlit("group");
        reveal_strlit("tag");
        assert("skill_group"@.len() == 11 && "group"@.len() == 5 && "tag"@.len() == 3);
        let dv = edges.deep_view();
        assert forall|k: int| 0 <= k < e1 implies dv[k] == dv1[k] by {
            assert(dv2[k] == dv1[k]);
        }
        assert forall|k: int| 0 <= k < dv.len() implies edge_witnessed(ns, #[trigger] dv[k]) by {
            if k < e1 {
                assert(is_sg_edge(ns, dv1[k]));
            } else if k < e2 {
                assert(is_grp_edge(ns, dv2[k]));
                assert(dv[k] == dv2[k]);
            } else {
                assert(is_tag_edge(ns, dv[k]));
            }
        }
        // the blocks carry distinct relation strings
        assert forall|k: int| 0 <= k < e1 implies dv[k].relation == "skill_group"@ by {
            assert(is_sg_edge(ns, dv1[k]));
            let (i, l, j) = choose|i: int, l: int, j: int|
                sg_cond(ns, i, l, j) && dv1[k] == #[trigger] sg_edge(ns, i, l, j);
        }
        assert forall|k: int| e1 <= k < e2 implies dv[k].relation == "group"@ by {
            assert(is_grp_edge(ns, dv2[k]));
            assert(dv[k] == dv2[k]);
            let (i, j, g) = choose|i: int, j: int, g: Seq<char>|
                grp_cond(ns, i, j, g) && dv2[k] == #[trigger] grp_edge(ns, i, j, g);
        }
        assert forall|k: int| e2 <= k < dv.len() implies dv[k].relation == "tag"@ by {
            assert(is_tag_edge(ns, dv[k]));
            let (i, l, j) = choose|i: int, l: int, j: int|
                tag_cond(ns, i, l, j) && dv[k] == #[trigger] tag_edge(ns, i, l, j);
        }
        // completeness survives appending later blocks
        assert forall|i: int, l: int, j: int|
            sg_cond(ns, i, l, j) && lex3_lt(
                (i, l, j),
                (ns.len() as int, 0, 0),
            ) implies dv.contains(#[trigger] sg_edge(ns, i, l, j)) by {
            assert(dv1.contains(sg_edge(ns, i, l, j)));
            let z = choose|z: int| 0 <= z < dv1.len() && dv1[z] == sg_edge(ns, i, l, j);
            assert(dv[z] == sg_edge(ns, i, l, j));
        }
        assert forall|i: int, j: int, g: Seq<char>|
            grp_cond(ns, i, j, g) && lex2_lt((i, j), (ns.len() as int, 0)) implies dv.contains(
            #[trigger] grp_edge(ns, i, j, g),
        ) by {
            assert(dv2.contains(grp_edge(ns, i, j, g)));
            let z = choose|z: int| 0 <= z < dv2.len() && dv2[z] == grp_edge(ns, i, j, g);
            assert(dv[z] == grp_edge(ns, i, j, g));
        }
        // pairwise distinctness within the group and tag blocks
        assert forall|k1: int, k2: int|
            0 <= k1 < k2 < dv.len() && dv[k1].relation == "group"@ && dv[k2].relation
                == "group"@ implies dv[k1] != dv[k2] by {
            assert(e1 <= k1 < e2 && e1 <= k2 < e2);
            assert(dv[k1] == dv2[k1] && dv[k2] == dv2[k2]);
        }
        assert forall|k1: int, k2: int|
            0 <= k1 < k2 < dv.len() && dv[k1].relation == "tag"@ && dv[k2].relation
                == "tag"@ implies dv[k1] != dv[k2] by {
            assert(e2 <= k1 && e2 <= k2);
        }
    }
    edges
}

// ---------------------------------------------------------------------------
// Node selection
// ---------------------------------------------------------------------------

/// The two lists share at least one element.
pub open spec fn shares_tag(a: Seq<Seq<char>>, b: Seq<Seq<char>>) -> bool {
    exists|t: Seq<char>| #[trigger] a.contains(t) && b.contains(t)
}

/// Decides whether two tag lists share an element.
pub fn shares_tag_exec(a: &Vec<String>, b: &Vec<String>) -> (r: bool)
    ensures
        r == shares_tag(a.deep_view(), b.deep_view()),
{
    let ghost av = a.deep_view();
    let mut i: usize = 0;
    while i < a.len()
        invariant
            0 <= i <= a.len(),
            av == a.deep_view(),
            av.len() == a@.len(),
            forall|j: int| 0 <= j < av.len() ==> av[j] == a@[j]@,
            forall|j: int| 0 <= j < i ==> !b.deep_view().contains(av[j]),
        decreases a.len() - i,
    {
        if str_vec_contains(b, a[i].as_str()) {
            proof {
                assert(av.contains(av[i as int]));
            }
            return true;
        }
        i = i + 1;
    }
    proof {
        if shares_tag(av, b.deep_view()) {
            let t = choose|t: Seq<char>| #[trigger] av.contains(t) && b.deep_view().contains(t);
            let j = choose|j: int| 0 <= j < av.len() && av[j] == t;
            assert(false);
        }
    }
    false
}

/// The group filter in force: the query's groups, else the resolved
/// persona's group affinities, else no restriction.
pub open spec fn effective_groups(
    m: Map<(Category, Seq<char>), FragmentV>,
    pv: ResolveParamsV,
) -> Seq<Seq<char>> {
    if pv.groups.len() > 0 {
        pv.groups
    } else {
        match pv.persona {
            Some(p) => if m.contains_key((Category::Persona, p)) {
                m[(Category::Persona, p)].skill_groups
            } else {
                Seq::empty()
            },
            None => Seq::empty(),
        }
    }
}

/// A skill passes when no group filter is in force or its group is in
/// the filter.
pub open spec fn group_ok(f: FragmentV, eff: Seq<Seq<char>>) -> bool {
    eff.len() == 0 || (match f.group {
        Some(g) => eff.contains(g),
        None => false,
    })
}

/// A fragment passes when no tag filter is in force or it shares a tag
/// with the filter.
pub open spec fn tag_ok(f: FragmentV, tags: Seq<Seq<char>>) -> bool {
    tags.len() == 0 || shares_tag(f.tags, tags)
}

/// Which fragments the query selects, by key: the seed persona; skills
/// passing the group and tag filters; contexts and constraints passing
/// the tag filter; every tone.
pub open spec fn selected_key(
    m: Map<(Category, Seq<char>), FragmentV>,
    pv: ResolveParamsV,
    k: (Category, Seq<char>),
) -> bool {
    m.contains_key(k) && (match k.0 {
        Category::Persona => pv.persona == Some(k.1),
        Category::Skill => group_ok(m[k], effective_groups(m, pv)) && tag_ok(m[k], pv.tags),
        Category::Context => tag_ok(m[k], pv.tags),
        Category::Tone => true,
        Category::Constraint => tag_ok(m[k], pv.tags),
    })
}

/// `nv` is the node of a selected fragment.
pub open spec fn node_from(
    m: Map<(Category, Seq<char>), FragmentV>,
    pv: ResolveParamsV,
    nv: NodeV,
) -> bool {
    exists|k: (Category, Seq<char>)| #[trigger] selected_key(m, pv, k) && nv == spec_node_of(m[k])
}

/// Law: a tag filter never excludes a tone, but always excludes a skill
/// that shares no tag with the filter.
pub proof fn lemma_tag_filter_selection(
    m: Map<(Category, Seq<char>), FragmentV>,
    pv: ResolveParamsV,
    k: (Category, Seq<char>),
)
    requires
        m.contains_key(k),
    ensures
        k.0 == Category::Tone ==> selected_key(m, pv, k),
        k.0 == Category::Skill && pv.tags.len() > 0 && selected_key(m, pv, k) ==> shares_tag(
            m[k].tags,
            pv.tags,
        ),
{
}

/// Law: a query without a seed persona selects no persona node.
pub proof fn lemma_no_seed_no_persona_node(
    m: Map<(Category, Seq<char>), FragmentV>,
    pv: ResolveParamsV,
    ns: Seq<NodeV>,
)
    requires
        pv.persona is None,
        forall|i: int| 0 <= i < ns.len() ==> node_from(m, pv, #[trigger] ns[i]),
        forall|k: (Category, Seq<char>)| #![auto]
            m.contains_key(k) ==> m[k].category == k.0,
    ensures
        forall|i: int| 0 <= i < ns.len() ==> (#[trigger] ns[i]).category != "persona"@,
{
    lemma_labels_colon_free();
    assert forall|i: int|
        0 <= i < ns.len() implies (#[trigger] ns[i]).category != "persona"@ by {
        assert(node_from(m, pv, ns[i]));
        let k = choose|k: (Category, Seq<char>)|
            #[trigger] selected_key(m, pv, k) && ns[i] == spec_node_of(m[k]);
        assert(k.0 != Category::Persona);
        assert(m[k].category == k.0);
        assert(ns[i].category == spec_cat_label(k.0));
        if spec_cat_label(k.0) == "persona"@ {
            assert(spec_cat_label(k.0) == spec_cat_label(Category::Persona));
            assert(k.0 == Category::Persona);
        }
    }
}

/// The optional per-block filters over a fragment.
pub open spec fn block_sel(
    f: FragmentV,
    og: Option<Seq<Seq<char>>>,
    ot: Option<Seq<Seq<char>>>,
) -> bool {
    &&& match og {
        Some(eff) => group_ok(f, eff),
        None => true,
    }
    &&& match ot {
        Some(ts) => tag_ok(f, ts),
        None => true,
    }
}

/// View of an optional list filter.
pub open spec fn opt_strs_view(o: Option<&Vec<String>>) -> Option<Seq<Seq<char>>> {
    match o {
        Some(v) => Some(v.deep_view()),
        None => None,
    }
}

/// `nv` is the node of a block fragment passing the filters.
pub open spec fn node_of_block(
    fdv: Seq<FragmentV>,
    og: Option<Seq<Seq<char>>>,
    ot: Option<Seq<Seq<char>>>,
    nv: NodeV,
) -> bool {
    exists|q: int|
        0 <= q < fdv.len() && block_sel(#[trigger] fdv[q], og, ot) && nv == spec_node_of(fdv[q])
}

/// Appends one category's filtered, name-sorted fragments as nodes.
fn push_block(
    nodes: &mut Vec<Node>,
    frags: &Vec<&Fragment>,
    groups: Option<&Vec<String>>,
    tags: Option<&Vec<String>>,
    Ghost(c): Ghost<Category>,
)
    requires
        forall|q: int|
            0 <= q < frags.deep_view().len() ==> (#[trigger] frags.deep_view()[q]).category == c,
        forall|q1: int, q2: int|
            0 <= q1 < q2 < frags.deep_view().len() ==> crate::registry::frag_lt(
                frags.deep_view()[q1],
                frags.deep_view()[q2],
            ),
        forall|i: int|
            0 <= i < old(nodes).deep_view().len() ==> label_rank(
                #[trigger] old(nodes).deep_view()[i].category,
            ) < resolve_rank(c),
        forall|i: int, j: int|
            0 <= i < j < old(nodes).deep_view().len() ==> node_lt(
                old(nodes).deep_view()[i],
                old(nodes).deep_view()[j],
            ),
    ensures
        final(nodes)@.len() >= old(nodes)@.len(),
        forall|i: int|
            0 <= i < old(nodes)@.len() ==> final(nodes).deep_view()[i] == old(
                nodes,
            ).deep_view()[i],
        forall|i: int, j: int|
            0 <= i < j < final(nodes).deep_view().len() ==> node_lt(
                final(nodes).deep_view()[i],
                final(nodes).deep_view()[j],
            ),
        forall|i: int|
            0 <= i < final(nodes).deep_view().len() ==> label_rank(
                #[trigger] final(nodes).deep_view()[i].category,
            ) <= resolve_rank(c),
        forall|i: int|
            old(nodes)@.len() <= i < final(nodes)@.len() ==> node_of_block(
                frags.deep_view(),
                opt_strs_view(groups),
                opt_strs_view(tags),
                #[trigger] final(nodes).deep_view()[i],
            ),
        forall|q: int|
            0 <= q < frags.deep_view().len() && block_sel(
                #[trigger] frags.deep_view()[q],
                opt_strs_view(groups),
                opt_strs_view(tags),
            ) ==> final(nodes).deep_view().contains(spec_node_of(frags.deep_view()[q])),
{
    let ghost fdv = frags.deep_view();
    let ghost base = old(nodes)@.len() as int;
    proof {
        lemma_label_rank_of_category();
    }
    let mut q: usize = 0;
    while q < frags.len()
        invariant
            0 <= q <= frags.len(),
            fdv == frags.deep_view(),
            fdv.len() == frags@.len(),
            forall|z: int| 0 <= z < fdv.len() ==> fdv[z] == frags@[z]@,
            forall|z: int| 0 <= z < fdv.len() ==> (#[trigger] fdv[z]).category == c,
            forall|q1: int, q2: int|
                0 <= q1 < q2 < fdv.len() ==> crate::registry::frag_lt(fdv[q1], fdv[q2]),
            label_rank(spec_cat_label(c)) == resolve_rank(c),
            base == old(nodes)@.len(),
            base <= nodes@.len(),
            forall|i: int| 0 <= i < base ==> nodes.deep_view()[i] == old(nodes).deep_view()[i],
            forall|i: int|
                0 <= i < base ==> label_rank(#[trigger] nodes.deep_view()[i].category)
                    < resolve_rank(c),
            forall|i: int, j: int|
                0 <= i < j < nodes.deep_view().len() ==> node_lt(
                    nodes.deep_view()[i],
                    nodes.deep_view()[j],
                ),
            forall|i: int|
                0 <= i < nodes.deep_view().len() ==> label_rank(
                    #[trigger] nodes.deep_view()[i].category,
                ) <= resolve_rank(c),
            forall|i: int|
                base <= i < nodes@.len() ==> node_of_block(
                    fdv.take(q as int),
                    opt_strs_view(groups),
                    opt_strs_view(tags),
                    #[trigger] nodes.deep_view()[i],
                ),
            forall|z: int|
                0 <= z < q && block_sel(
                    #[trigger] fdv[z],
                    opt_strs_view(groups),
                    opt_strs_view(tags),
                ) ==> nodes.deep_view().contains(spec_node_of(fdv[z])),
        decreases frags.len() - q,
    {
        let f: &Fragment = frags[q];
        let g_ok = match groups {
            Some(eff) => {
                if eff.len() == 0 {
                    true
                } else {
                    match &f.group {
                        Some(g) => str_vec_contains(eff, g.as_str()),
                        None => false,
                    }
                }
            }
            None => true,
        };
        let t_ok = match tags {
            Some(ts) => {
                if ts.len() == 0 {
                    true
                } else {
                    shares_tag_exec(&f.tags, ts)
                }
            }
            None => true,
        };
        if g_ok && t_ok {
            proof {
                assert(block_sel(fdv[q as int], opt_strs_view(groups), opt_strs_view(tags)));
            }
            let ghost before = nodes.deep_view();
            let ghost pre = nodes@;
            let ghost x = spec_node_of(fdv[q as int]);
            let node = fragment_to_node(f);
            proof {
                assert(node@ == x);
            }
            nodes.push(node);
            proof {
                let ndv = nodes.deep_view();
                assert forall|z: int| 0 <= z < ndv.len() implies ndv[z] == before.push(x)[z] by {
                    if z < before.len() {
                        assert(nodes@[z] == pre[z]);
                    }
                }
                assert(ndv =~= before.push(x));
                assert(x.category == spec_cat_label(c));
                assert(label_rank(x.category) == resolve_rank(c));
                assert forall|i: int, j: int|
                    0 <= i < j < ndv.len() implies node_lt(ndv[i], ndv[j]) by {
                    if j == ndv.len() - 1 {
                        if i < base {
                            assert(label_rank(ndv[i].category) < resolve_rank(c));
                        } else {
                            assert(node_of_block(
                                fdv.take(q as int),
                                opt_strs_view(groups),
                                opt_strs_view(tags),
                                before[i],
                            ));
                            let z = choose|z: int|
                                0 <= z < q && block_sel(
                                    #[trigger] fdv.take(q as int)[z],
                                    opt_strs_view(groups),
                                    opt_strs_view(tags),
                                ) && before[i] == spec_node_of(fdv.take(q as int)[z]);
                            assert(fdv.take(q as int)[z] == fdv[z]);
                            assert(crate::registry::frag_lt(fdv[z], fdv[q as int]));
                            assert(fdv[z].category == c && fdv[q as int].category == c);
                            assert(crate::strutil::str_lt(fdv[z].name, fdv[q as int].name));
                            assert(ndv[i].name == fdv[z].name);
                            assert(label_rank(ndv[i].category) == resolve_rank(c));
                        }
                    }
                }
                assert forall|i: int|
                    base <= i < nodes@.len() implies node_of_block(
                    fdv.take(q + 1),
                    opt_strs_view(groups),
                    opt_strs_view(tags),
                    #[trigger] nodes.deep_view()[i],
                ) by {
                    if i < nodes@.len() - 1 {
                        assert(node_of_block(
                            fdv.take(q as int),
                            opt_strs_view(groups),
                            opt_strs_view(tags),
                            before[i],
                        ));
                        let z = choose|z: int|
                            0 <= z < q && block_sel(
                                #[trigger] fdv.take(q as int)[z],
                                opt_strs_view(groups),
                                opt_strs_view(tags),
                            ) && before[i] == spec_node_of(fdv.take(q as int)[z]);
                        assert(fdv.take(q + 1)[z] == fdv[z]);
                        assert(0 <= z < q + 1 && block_sel(
                            fdv.take(q + 1)[z],
                            opt_strs_view(groups),
                            opt_strs_view(tags),
                        ) && nodes.deep_view()[i] == spec_node_of(fdv.take(q + 1)[z]));
                    } else {
                        assert(fdv.take(q + 1)[q as int] == fdv[q as int]);
                        assert(0 <= q < q + 1 && block_sel(
                            fdv.take(q + 1)[q as int],
                            opt_strs_view(groups),
                            opt_strs_view(tags),
                        ) && nodes.deep_view()[i] == spec_node_of(fdv.take(q + 1)[q as int]));
                    }
                }
                assert forall|z: int|
                    0 <= z < q + 1 && block_sel(
                        #[trigger] fdv[z],
                        opt_strs_view(groups),
                        opt_strs_view(tags),
                    ) implies nodes.deep_view().contains(spec_node_of(fdv[z])) by {
                    if z < q {
                        let i = choose|i: int|
                            0 <= i < before.len() && before[i] == spec_node_of(fdv[z]);
                        assert(nodes.deep_view()[i] == spec_node_of(fdv[z]));
                    } else {
                        assert(nodes.deep_view()[ndv.len() - 1] == spec_node_of(fdv[q as int]));
                    }
                }
            }
        } else {
            proof {
                assert(!block_sel(fdv[q as int], opt_strs_view(groups), opt_strs_view(tags)));
                assert forall|i: int|
                    base <= i < nodes@.len() implies node_of_block(
                    fdv.take(q + 1),
                    opt_strs_view(groups),
                    opt_strs_view(tags),
                    #[trigger] nodes.deep_view()[i],
                ) by {
                    assert(node_of_block(
                        fdv.take(q as int),
                        opt_strs_view(groups),
                        opt_strs_view(tags),
                        nodes.deep_view()[i],
                    ));
                    let z = choose|z: int|
                        0 <= z < q && block_sel(
                            #[trigger] fdv.take(q as int)[z],
                            opt_strs_view(groups),
                            opt_strs_view(tags),
                        ) && nodes.deep_view()[i] == spec_node_of(fdv.take(q as int)[z]);
                    assert(fdv.take(q + 1)[z] == fdv[z]);
                    assert(0 <= z < q + 1 && block_sel(
                        fdv.take(q + 1)[z],
                        opt_strs_view(groups),
                        opt_strs_view(tags),
                    ) && nodes.deep_view()[i] == spec_node_of(fdv.take(q + 1)[z]));
                }
            }
        }
        q = q + 1;
    }
    proof {
        assert(fdv.take(fdv.len() as int) =~= fdv);
    }
}

/// Nodes contained in a prefix-preserving extension stay contained.
proof fn lemma_contains_prefix(a: Seq<NodeV>, b: Seq<NodeV>)
    requires
        a.len() <= b.len(),
        forall|i: int| 0 <= i < a.len() ==> b[i] == a[i],
    ensures
        forall|x: NodeV| a.contains(x) ==> #[trigger] b.contains(x),
{
    assert forall|x: NodeV| a.contains(x) implies #[trigger] b.contains(x) by {
        let i = choose|i: int| 0 <= i < a.len() && a[i] == x;
        assert(b[i] == x);
    }
}

/// Resolves a graph query against a registry snapshot: the only failure
/// is a named persona that does not exist. Nodes are the selected
/// fragments in category-then-name order; edges (when requested) are
/// exactly those the three rules produce, with shared-group and
/// shared-tag edges emitted once per pair per label.
pub fn resolve(registry: &Registry, params: &ResolveParams) -> (r: Result<ResolveResult, String>)
    ensures
        match r {
            Ok(res) => ({
                let m = registry@;
                let pv = params@;
                let ndv = res.nodes.deep_view();
                let edv = res.edges.deep_view();
                &&& match pv.persona {
                    Some(p) => m.contains_key((Category::Persona, p)),
                    None => true,
                }
                &&& forall|i: int, j: int| 0 <= i < j < ndv.len() ==> node_lt(ndv[i], ndv[j])
                &&& forall|i: int| 0 <= i < ndv.len() ==> node_from(m, pv, #[trigger] ndv[i])
                &&& forall|k: (Category, Seq<char>)| #![auto]
                    selected_key(m, pv, k) ==> ndv.contains(spec_node_of(m[k]))
                &&& if pv.include_edges == Some(false) {
                    edv.len() == 0
                } else {
                    &&& forall|k: int|
                        0 <= k < edv.len() ==> edge_witnessed(ndv, #[trigger] edv[k])
                    &&& sg_done_upto(ndv, edv, (ndv.len() as int, 0, 0))
                    &&& grp_done_upto(ndv, edv, (ndv.len() as int, 0))
                    &&& tag_done_upto(ndv, edv, (ndv.len() as int, 0, 0))
                    &&& forall|k1: int, k2: int|
                        0 <= k1 < k2 < edv.len() && edv[k1].relation == "group"@
                            && edv[k2].relation == "group"@ ==> edv[k1] != edv[k2]
                    &&& forall|k1: int, k2: int|
                        0 <= k1 < k2 < edv.len() && edv[k1].relation == "tag"@ && edv[k2].relation
                            == "tag"@ ==> edv[k1] != edv[k2]
                }
                &&& res.meta@.seed == match pv.persona {
                    Some(p) => Some(node_id_of(Category::Persona, p)),
                    None => None::<Seq<char>>,
                }
                &&& res.meta@.resolved_groups == effective_groups(m, pv)
                &&& res.meta@.resolved_tags == pv.tags
                &&& res.meta@.node_count == ndv.len()
                &&& res.meta@.edge_count == edv.len()
            }),
            Err(msg) => ({
                let m = registry@;
                let pv = params@;
                match pv.persona {
                    Some(p) => !m.contains_key((Category::Persona, p)) && msg@ == "Persona '"@ + p
                        + "' not found"@,
                    None => false,
                }
            }),
        },
{
    let ghost m = registry@;
    let ghost pv = params@;
    proof {
        registry.lemma_key_fields();
        lemma_label_rank_of_category();
    }
    // Step 1: seed resolution
    let persona_frag: Option<&Fragment> = match &params.persona {
        Some(name) => match registry.get(Category::Persona, name.as_str()) {
            Some(f) => Some(f),
            None => {
                let mut msg = String::from_str("Persona '");
                msg.append(name.as_str());
                msg.append("' not found");
                return Err(msg);
            }
        },
        None => None,
    };
    // the effective group filter
    let effective: Vec<String> = if params.groups.len() > 0 {
        clone_strings(&params.groups)
    } else {
        match persona_frag {
            Some(f) => clone_strings(&f.skill_groups),
            None => Vec::new(),
        }
    };
    proof {
        if params.groups@.len() == 0 && persona_frag is None {
            assert(effective.deep_view() =~= Seq::<Seq<char>>::empty());
        }
        assert(effective.deep_view() == effective_groups(m, pv));
    }
    // Step 2: node selection, in category order
    let mut nodes: Vec<Node> = Vec::new();
    let ghost pkey: (Category, Seq<char>) = (
        Category::Persona,
        match pv.persona {
            Some(p) => p,
            None => Seq::empty(),
        },
    );
    match persona_frag {
        Some(f) => {
            let node = fragment_to_node(f);
            nodes.push(node);
            proof {
                assert(nodes.deep_view().len() == 1);
                assert(nodes.deep_view()[0] == spec_node_of(m[pkey]));
                assert(selected_key(m, pv, pkey));
                assert(label_rank(nodes.deep_view()[0].category) == 0);
            }
        }
        None => {
            proof {
                assert(nodes.deep_view().len() == 0);
            }
        }
    }
    let ghost dv0 = nodes.deep_view();
    let skills = registry.list(Some(Category::Skill), None, None);
    push_block(
        &mut nodes,
        &skills,
        Some(&effective),
        Some(&params.tags),
        Ghost(Category::Skill),
    );
    let ghost dv1 = nodes.deep_view();
    let contexts = registry.list(Some(Category::Context), None, None);
    push_block(&mut nodes, &contexts, None, Some(&params.tags), Ghost(Category::Context));
    let ghost dv2 = nodes.deep_view();
    let tones = registry.list(Some(Category::Tone), None, None);
    push_block(&mut nodes, &tones, None, None, Ghost(Category::Tone));
    let ghost dv3 = nodes.deep_view();
    let constraints = registry.list(Some(Category::Constraint), None, None);
    push_block(&mut nodes, &constraints, None, Some(&params.tags), Ghost(Category::Constraint));
    let ghost ndv = nodes.deep_view();
    proof {
        lemma_contains_prefix(dv0, dv1);
        lemma_contains_prefix(dv1, dv2);
        lemma_contains_prefix(dv2, dv3);
        lemma_contains_prefix(dv3, ndv);
        // every node comes from a selected fragment
        assert forall|i: int| 0 <= i < ndv.len() implies node_from(m, pv, #[trigger] ndv[i]) by {
            if i < dv0.len() {
                assert(ndv[i] == dv0[i]);
                assert(ndv[i] == spec_node_of(m[pkey]));
                assert(selected_key(m, pv, pkey));
            } else if i < dv1.len() {
                assert(ndv[i] == dv1[i]);
                assert(node_of_block(
                    skills.deep_view(),
                    Some(effective.deep_view()),
                    Some(params.tags.deep_view()),
                    dv1[i],
                ));
                let q = choose|q: int|
                    0 <= q < skills.deep_view().len() && block_sel(
                        #[trigger] skills.deep_view()[q],
                        Some(effective.deep_view()),
                        Some(params.tags.deep_view()),
                    ) && dv1[i] == spec_node_of(skills.deep_view()[q]);
                let f = skills.deep_view()[q];
                assert(m.contains_key(crate::registry::frag_key(f)) && m[crate::registry::frag_key(
                    f,
                )] == f);
                assert(selected_key(m, pv, crate::registry::frag_key(f)));
            } else if i < dv2.len() {
                assert(ndv[i] == dv2[i]);
                let q = choose|q: int|
                    0 <= q < contexts.deep_view().len() && block_sel(
                        #[trigger] contexts.deep_view()[q],
                        None,
                        Some(params.tags.deep_view()),
                    ) && dv2[i] == spec_node_of(contexts.deep_view()[q]);
                let f = contexts.deep_view()[q];
                assert(m.contains_key(crate::registry::frag_key(f)) && m[crate::registry::frag_key(
                    f,
                )] == f);
                assert(selected_key(m, pv, crate::registry::frag_key(f)));
            } else if i < dv3.len() {
                assert(ndv[i] == dv3[i]);
                let q = choose|q: int|
                    0 <= q < tones.deep_view().len() && block_sel(
                        #[trigger] tones.deep_view()[q],
                        None,
                        None,
                    ) && dv3[i] == spec_node_of(tones.deep_view()[q]);
                let f = tones.deep_view()[q];
                assert(m.contains_key(crate::registry::frag_key(f)) && m[crate::registry::frag_key(
                    f,
                )] == f);
                assert(selected_key(m, pv, crate::registry::frag_key(f)));
            } else {
                let q = choose|q: int|
                    0 <= q < constraints.deep_view().len() && block_sel(
                        #[trigger] constraints.deep_view()[q],
                        None,
                        Some(params.tags.deep_view()),
                    ) && ndv[i] == spec_node_of(constraints.deep_view()[q]);
                let f = constraints.deep_view()[q];
                assert(m.contains_key(crate::registry::frag_key(f)) && m[crate::registry::frag_key(
                    f,
                )] == f);
                assert(selected_key(m, pv, crate::registry::frag_key(f)));
            }
        }
        // every selected fragment appears as a node
        assert forall|k: (Category, Seq<char>)| #![auto]
            selected_key(m, pv, k) implies ndv.contains(spec_node_of(m[k])) by {
            let f = m[k];
            assert(f.category == k.0 && f.name == k.1);
            match k.0 {
                Category::Persona => {
                    assert(pv.persona == Some(k.1));
                    assert(k == pkey);
                    assert(dv0.contains(spec_node_of(m[pkey])));
                }
                Category::Skill => {
                    assert(crate::registry::list_sel(
                        f,
                        Some(Category::Skill),
                        crate::registry::opt_str_view(None),
                        crate::registry::opt_str_view(None),
                    ));
                    assert(skills.deep_view().contains(f));
                    let q = choose|q: int|
                        0 <= q < skills.deep_view().len() && skills.deep_view()[q] == f;
                    assert(block_sel(
                        skills.deep_view()[q],
                        Some(effective.deep_view()),
                        Some(params.tags.deep_view()),
                    ));
                    assert(dv1.contains(spec_node_of(f)));
                }
                Category::Context => {
                    assert(crate::registry::list_sel(
                        f,
                        Some(Category::Context),
                        crate::registry::opt_str_view(None),
                        crate::registry::opt_str_view(None),
                    ));
                    assert(contexts.deep_view().contains(f));
                    let q = choose|q: int|
                        0 <= q < contexts.deep_view().len() && contexts.deep_view()[q] == f;
                    assert(block_sel(contexts.deep_view()[q], None, Some(params.tags.deep_view())));
                    assert(dv2.contains(spec_node_of(f)));
                }
                Category::Tone => {
                    assert(crate::registry::list_sel(
                        f,
                        Some(Category::Tone),
                        crate::registry::opt_str_view(None),
                        crate::registry::opt_str_view(None),
                    ));
                    assert(tones.deep_view().contains(f));
                    let q = choose|q: int|
                        0 <= q < tones.deep_view().len() && tones.deep_view()[q] == f;
                    assert(block_sel(tones.deep_view()[q], None, None));
                    assert(dv3.contains(spec_node_of(f)));
                }
                Category::Constraint => {
                    assert(crate::registry::list_sel(
                        f,
                        Some(Category::Constraint),
                        crate::registry::opt_str_view(None),
                        crate::registry::opt_str_view(None),
                    ));
                    assert(constraints.deep_view().contains(f));
                    let q = choose|q: int|
                        0 <= q < constraints.deep_view().len() && constraints.deep_view()[q] == f;
                    assert(block_sel(
                        constraints.deep_view()[q],
                        None,
                        Some(params.tags.deep_view()),
                    ));
                    assert(ndv.contains(spec_node_of(f)));
                }
            }
        }
        // distinct node ids, from the strict order
        assert forall|p: int, q: int| 0 <= p < q < ndv.len() implies ndv[p].id != ndv[q].id by {
            assert(node_lt(ndv[p], ndv[q]));
            assert(node_from(m, pv, ndv[p]));
            assert(node_from(m, pv, ndv[q]));
            let kp = choose|k: (Category, Seq<char>)|
                #[trigger] selected_key(m, pv, k) && ndv[p] == spec_node_of(m[k]);
            let kq = choose|k: (Category, Seq<char>)|
                #[trigger] selected_key(m, pv, k) && ndv[q] == spec_node_of(m[k]);
            lemma_node_id_injective(m[kp].category, m[kp].name, m[kq].category, m[kq].name);
            if ndv[p].id == ndv[q].id {
                assert(m[kp].category == m[kq].category && m[kp].name == m[kq].name);
                assert(ndv[p].category == ndv[q].category);
                assert(ndv[p].name == ndv[q].name);
                crate::strutil::lemma_str_lt_irreflexive(ndv[p].name);
                assert(false);
            }
        }
    }
    // Step 3: edge synthesis
    let with_edges = match params.include_edges {
        Some(b) => b,
        None => true,
    };
    let edges: Vec<Edge> = if with_edges {
        build_edges(&nodes)
    } else {
        Vec::new()
    };
    proof {
        if !with_edges {
            assert(edges.deep_view().len() == 0);
        }
    }
    // Step 4: metadata
    let seed: Option<String> = match &params.persona {
        Some(p) => Some(node_id(&Category::Persona, p.as_str())),
        None => None,
    };
    let resolved_tags = clone_strings(&params.tags);
    let node_count = nodes.len();
    let edge_count = edges.len();
    let meta = ResolveMeta {
        seed,
        resolved_groups: effective,
        resolved_tags,
        node_count,
        edge_count,
    };
    Ok(ResolveResult { nodes, edges, meta })
}

} // verus!
