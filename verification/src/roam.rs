//! A link graph over note documents: every `.org` document is a node named
//! by its file stem, every `[[target]]` occurrence a directed link, with
//! self-links and repeated links dropped; backlink queries walk the graph's
//! incoming edges.

use vstd::prelude::*;
use crate::text::{
    scan_len, str_chars, slice_to_vec_chars, chars_string, split_lines,
    lines_of,
};

verus! {

/// A note node: its identifier (the file stem), display title, and path.
#[derive(Clone, PartialEq, Eq, Debug)]
pub struct RoamNode {
    pub id: String,
    pub title: String,
    pub path: String,
    pub tags: Vec<String>,
}

#[verifier::ext_equal]
pub struct NodeModel {
    pub id: Seq<char>,
    pub title: Seq<char>,
    pub path: Seq<char>,
    pub tags: Seq<Seq<char>>,
}

impl View for RoamNode {
    type V = NodeModel;

    open spec fn view(&self) -> NodeModel {
        NodeModel {
            id: self.id@,
            title: self.title@,
            path: self.path@,
            tags: self.tags@.map_values(|t: String| t@),
        }
    }
}

/// A directed link between two node identifiers.
#[derive(Clone, PartialEq, Eq, Debug)]
pub struct RoamLink {
    pub source: String,
    pub target: String,
}

#[verifier::ext_equal]
pub struct LinkModel {
    pub source: Seq<char>,
    pub target: Seq<char>,
}

impl View for RoamLink {
    type V = LinkModel;

    open spec fn view(&self) -> LinkModel {
        LinkModel { source: self.source@, target: self.target@ }
    }
}

#[verifier::external_type_specification]
#[verifier::external_body]
#[verifier::reject_recursive_types(N)]
#[verifier::reject_recursive_types(E)]
#[verifier::reject_recursive_types(Ty)]
#[verifier::reject_recursive_types(Ix)]
pub struct ExGraph<N, E, Ty, Ix>(petgraph::graph::Graph<N, E, Ty, Ix>);

#[verifier::external_type_specification]
#[verifier::external_body]
pub struct ExDirected(petgraph::Directed);

/// The node weights of the graph, in node-index order.
pub uninterp spec fn graph_node_list(g: petgraph::graph::Graph<u64, u64, petgraph::Directed, usize>) -> Seq<u64>;

/// The edges of the graph as (source index, target index, weight), in
/// order of addition.
pub uninterp spec fn graph_edge_list(g: petgraph::graph::Graph<u64, u64, petgraph::Directed, usize>) -> Seq<(u64, u64, u64)>;

/// Relies on petgraph's `Graph::with_capacity`: the new graph has no
/// nodes and no edges.
#[verifier::external_body]
fn graph_new() -> (g: petgraph::graph::Graph<u64, u64, petgraph::Directed, usize>)
    ensures
        graph_node_list(g) == Seq::<u64>::empty(),
        graph_edge_list(g) == Seq::<(u64, u64, u64)>::empty(),
{
    petgraph::graph::Graph::with_capacity(0, 0)
}

/// Relies on petgraph's `Graph::add_node`: appends one node and returns
/// its index, which equals the node count before the call.
#[verifier::external_body]
fn graph_add_node(g: &mut petgraph::graph::Graph<u64, u64, petgraph::Directed, usize>, w: u64) -> (r: usize)
    ensures
        graph_node_list(*final(g)) == graph_node_list(*old(g)).push(w),
        graph_edge_list(*final(g)) == graph_edge_list(*old(g)),
        r == graph_node_list(*old(g)).len(),
{
    g.add_node(w).index()
}

/// Relies on petgraph's `Graph::add_edge`: appends one edge from `a` to
/// `b` and leaves the nodes unchanged.
#[verifier::external_body]
fn graph_add_edge(g: &mut petgraph::graph::Graph<u64, u64, petgraph::Directed, usize>, a: usize, b: usize, w: u64)
    requires
        a < graph_node_list(*old(g)).len(),
        b < graph_node_list(*old(g)).len(),
    ensures
        graph_node_list(*final(g)) == graph_node_list(*old(g)),
        graph_edge_list(*final(g)) == graph_edge_list(*old(g)).push((a as u64, b as u64, w)),
{
    let _ = g.add_edge(
        petgraph::graph::NodeIndex::new(a),
        petgraph::graph::NodeIndex::new(b),
        w,
    );
}

/// The edges into node `idx`, in order of addition.
pub open spec fn kept_edges(es: Seq<(u64, u64, u64)>, idx: int) -> Seq<(u64, u64, u64)> {
    es.filter(|e: (u64, u64, u64)| e.1 == idx as u64)
}

/// The sources of the edges into node `idx`, most recent edge first.
pub open spec fn incoming_sources_of(es: Seq<(u64, u64, u64)>, idx: int) -> Seq<u64> {
    kept_edges(es, idx).map_values(|e: (u64, u64, u64)| e.0).reverse()
}

/// Relies on petgraph's `Graph::neighbors_directed` with `Incoming`: it
/// yields the source of each edge into `target`, most recently added edge
/// first, and nothing for an absent node.
#[verifier::external_body]
fn graph_incoming_sources(g: &petgraph::graph::Graph<u64, u64, petgraph::Directed, usize>, target: usize) -> (r: Vec<usize>)
    ensures
        r@.map_values(|x: usize| x as u64) == incoming_sources_of(graph_edge_list(*g), target as int),
{
    g.neighbors_directed(petgraph::graph::NodeIndex::new(target), petgraph::Direction::Incoming)
        .map(|n| n.index())
        .collect()
}

/// The part of `s` after its last `c`.
pub open spec fn after_last(s: Seq<char>, c: char) -> Seq<char>
    decreases s.len(),
{
    if s.len() == 0 {
        s
    } else if s.last() == c {
        Seq::empty()
    } else {
        after_last(s.drop_last(), c).push(s.last())
    }
}

pub proof fn lemma_after_last(s: Seq<char>, c: char, k: int)
    requires
        0 <= k <= s.len(),
        forall|j: int| k <= j < s.len() ==> s[j] != c,
        k == 0 || s[k - 1] == c,
    ensures
        after_last(s, c) =~= s.skip(k),
    decreases s.len(),
{
    if k < s.len() {
        lemma_after_last(s.drop_last(), c, k);
        assert(s.drop_last().skip(k) =~= s.skip(k).drop_last());
        assert(after_last(s, c) =~= after_last(s.drop_last(), c).push(s.last()));
    } else {
        if k == 0 {
            assert(s.len() == 0);
        }
        assert(s.skip(k) =~= Seq::<char>::empty());
    }
}

/// The position just after the last `.` of `s`, or -1 with none.
pub open spec fn last_dot(s: Seq<char>) -> int
    decreases s.len(),
{
    if s.len() == 0 {
        -1
    } else if s.last() == '.' {
        s.len() - 1
    } else {
        last_dot(s.drop_last())
    }
}

pub proof fn lemma_last_dot(s: Seq<char>, d: int)
    requires
        -1 <= d < s.len(),
        forall|j: int| d < j < s.len() ==> s[j] != '.',
        d >= 0 ==> s[d] == '.',
    ensures
        last_dot(s) == d,
    decreases s.len(),
{
    if s.len() > 0 && s.last() != '.' {
        lemma_last_dot(s.drop_last(), d);
    }
}

/// The file name of a path: what follows the last separator.
pub open spec fn file_name_of(path: Seq<char>) -> Seq<char> {
    after_last(path, '/')
}

/// The file stem: the name up to its last `.`, unless the dot leads.
pub open spec fn stem_of(name: Seq<char>) -> Seq<char> {
    let d = last_dot(name);
    if d <= 0 {
        name
    } else {
        name.take(d)
    }
}

/// The node identifier of a path: the file stem, or the whole path when
/// the name is empty.
pub open spec fn node_id_spec(path: Seq<char>) -> Seq<char> {
    let name = file_name_of(path);
    if name.len() == 0 {
        path
    } else {
        stem_of(name)
    }
}

fn file_name_chars(path: &Vec<char>) -> (r: Vec<char>)
    ensures
        r@ == file_name_of(path@),
{
    let n = path.len();
    let mut k: usize = n;
    while k > 0 && path[k - 1] != '/'
        invariant
            0 <= k <= n,
            n == path@.len(),
            forall|j: int| k <= j < n ==> path@[j] != '/',
        decreases k,
    {
        k = k - 1;
    }
    proof {
        lemma_after_last(path@, '/', k as int);
    }
    slice_to_vec_chars(path, k, n)
}

/// The node identifier of a document path.
pub fn compute_node_id(path: &str) -> (r: String)
    ensures
        r@ == node_id_spec(path@),
{
    let pathv = str_chars(path);
    let name = file_name_chars(&pathv);
    let m = name.len();
    if m == 0 {
        proof {
            assert(pathv@ =~= path@);
        }
        return chars_string(&pathv);
    }
    let mut d: usize = m;
    while d > 0 && name[d - 1] != '.'
        invariant
            0 <= d <= m,
            m == name@.len(),
            forall|j: int| d <= j < m ==> name@[j] != '.',
        decreases d,
    {
        d = d - 1;
    }
    if d == 0 {
        proof {
            lemma_last_dot(name@, -1);
        }
        return chars_string(&name);
    }
    proof {
        lemma_last_dot(name@, d - 1);
    }
    if d == 1 {
        return chars_string(&name);
    }
    let stem = slice_to_vec_chars(&name, 0, d - 1);
    proof {
        assert(stem@ =~= name@.take(d - 1));
    }
    chars_string(&stem)
}

/// Whether a path names a note file: its file name ends in `.org`.
pub open spec fn is_roam_file_spec(path: Seq<char>) -> bool {
    let name = file_name_of(path);
    ".org"@.is_suffix_of(name)
}

/// Whether a path names a note file: its file name ends in `.org`.
pub fn is_roam_file(path: &str) -> (r: bool)
    ensures
        r == is_roam_file_spec(path@),
{
    let pathv = str_chars(path);
    let name = file_name_chars(&pathv);
    let pat = str_chars(".org");
    let m = name.len();
    proof {
        reveal_strlit(".org");
    }
    if m < 4 {
        return false;
    }
    let tail = slice_to_vec_chars(&name, m - 4, m);
    proof {
        assert(tail@ =~= name@.skip(m - 4));
        assert(".org"@.is_suffix_of(name@) == (tail@ == ".org"@));
    }
    let mut k: usize = 0;
    let mut same: bool = true;
    while k < 4
        invariant
            0 <= k <= 4,
            tail@.len() == 4,
            pat@ == ".org"@,
            pat@.len() == 4,
            same == (forall|j: int| 0 <= j < k ==> tail@[j] == pat@[j]),
        decreases 4 - k,
    {
        if tail[k] != pat[k] {
            same = false;
        }
        k = k + 1;
    }
    proof {
        if same {
            assert(tail@ =~= pat@);
        } else {
            if tail@ == pat@ {
                assert(forall|j: int| 0 <= j < 4 ==> tail@[j] == pat@[j]);
            }
        }
    }
    same
}

/// The first `[[target]]` of a line, with a non-empty target.
pub open spec fn parse_roam_link_s(line: Seq<char>) -> Option<Seq<char>> {
    let i = find_pair(line, '[');
    if i == -1 {
        None
    } else {
        let rest = line.skip(i + 2);
        let e = find_pair(rest, ']');
        if e == -1 || e == 0 {
            None
        } else {
            Some(rest.take(e))
        }
    }
}

/// The first index where `c` occurs twice in a row, or -1.
pub open spec fn find_pair(s: Seq<char>, c: char) -> int
    decreases s.len(),
{
    if s.len() < 2 {
        -1
    } else if s[0] == c && s[1] == c {
        0
    } else {
        let r = find_pair(s.drop_first(), c);
        if r == -1 {
            -1
        } else {
            r + 1
        }
    }
}

proof fn lemma_find_pair_bounds(s: Seq<char>, c: char)
    ensures
        find_pair(s, c) == -1 || (0 <= find_pair(s, c) && find_pair(s, c) + 2 <= s.len()),
    decreases s.len(),
{
    if s.len() >= 2 && !(s[0] == c && s[1] == c) {
        lemma_find_pair_bounds(s.drop_first(), c);
    }
}

fn find_pair_exec(v: &Vec<char>, c: char) -> (r: Option<usize>)
    ensures
        (match r {
            Some(i) => find_pair(v@, c) == i as int && i + 2 <= v@.len(),
            None => find_pair(v@, c) == -1,
        }),
{
    let n = v.len();
    if n < 2 {
        return None;
    }
    let mut k: usize = 0;
    proof {
        assert(v@.skip(0) =~= v@);
    }
    while k + 1 < n
        invariant
            0 <= k <= n - 1,
            n == v@.len(),
            n >= 2,
            find_pair(v@, c) == if find_pair(v@.skip(k as int), c) == -1 {
                -1int
            } else {
                find_pair(v@.skip(k as int), c) + k
            },
        decreases n - k,
    {
        proof {
            assert(v@.skip(k as int)[0] == v@[k as int]);
            assert(v@.skip(k as int)[1] == v@[k + 1]);
            assert(v@.skip(k as int).drop_first() =~= v@.skip(k + 1));
        }
        if v[k] == c && v[k + 1] == c {
            return Some(k);
        }
        proof {
            lemma_find_pair_bounds(v@.skip(k + 1), c);
            assert(find_pair(v@.skip(k as int), c) == (if find_pair(v@.skip(k + 1), c) == -1 {
                -1int
            } else {
                find_pair(v@.skip(k + 1), c) + 1
            }));
        }
        k = k + 1;
    }
    proof {
        assert(v@.skip(k as int).len() < 2);
    }
    None
}

/// Reads the first wiki-style link target of a line.
pub fn parse_roam_link(line: &str) -> (r: Option<String>)
    ensures
        (match r {
            Some(t) => parse_roam_link_s(line@) == Some(t@),
            None => parse_roam_link_s(line@) is None,
        }),
{
    let chars = str_chars(line);
    parse_roam_link_chars(&chars)
}

/// As `parse_roam_link`, from a character buffer.
pub fn parse_roam_link_chars(line: &Vec<char>) -> (r: Option<String>)
    ensures
        (match r {
            Some(t) => parse_roam_link_s(line@) == Some(t@),
            None => parse_roam_link_s(line@) is None,
        }),
{
    let nl = line.len();
    let i = match find_pair_exec(line, '[') {
        None => {
            return None;
        },
        Some(i) => i,
    };
    let rest = slice_to_vec_chars(line, i + 2, nl);
    proof {
        assert(rest@ =~= line@.skip(i + 2));
    }
    let e = match find_pair_exec(&rest, ']') {
        None => {
            return None;
        },
        Some(e) => e,
    };
    if e == 0 {
        return None;
    }
    let target = slice_to_vec_chars(&rest, 0, e);
    proof {
        assert(target@ =~= rest@.take(e as int));
    }
    Some(chars_string(&target))
}

/// The links of one document: one per line holding a link, from the
/// document's node to the line's target.
pub open spec fn doc_links(id: Seq<char>, lines: Seq<Seq<char>>) -> Seq<(Seq<char>, Seq<char>)>
    decreases lines.len(),
{
    if lines.len() == 0 {
        Seq::empty()
    } else {
        let head: Seq<(Seq<char>, Seq<char>)> = match parse_roam_link_s(lines[0]) {
            Some(t) => seq![(id, t)],
            None => Seq::empty(),
        };
        head + doc_links(id, lines.drop_first())
    }
}

/// Collects the `[[target]]` links of a document.
pub fn extract_links(node_id: &str, text: &str) -> (r: Vec<(String, String)>)
    ensures
        r@.map_values(|p: (String, String)| (p.0@, p.1@)) == doc_links(
            node_id@,
            lines_of(text@),
        ),
{
    let textv = str_chars(text);
    let lines = split_lines(&textv);
    let ghost linesv = lines@.map_values(|l: Vec<char>| l@);
    let mut out: Vec<(String, String)> = Vec::new();
    let n = lines.len();
    let mut i: usize = 0;
    proof {
        assert(linesv.skip(0) =~= linesv);
        assert(out@.map_values(|p: (String, String)| (p.0@, p.1@)) =~= Seq::<(
            Seq<char>,
            Seq<char>,
        )>::empty());
    }
    while i < n
        invariant
            0 <= i <= n,
            n == linesv.len(),
            linesv == lines@.map_values(|l: Vec<char>| l@),
            doc_links(node_id@, linesv) =~= out@.map_values(|p: (String, String)| (p.0@, p.1@))
                + doc_links(node_id@, linesv.skip(i as int)),
        decreases n - i,
    {
        let line = &lines[i];
        proof {
            assert(linesv.skip(i as int)[0] == line@);
            assert(linesv.skip(i as int).drop_first() =~= linesv.skip(i + 1));
        }
        match parse_roam_link_chars(line) {
            Some(t) => {
                let ghost prev = out@;
                let id_copy = copy_str(node_id);
                out.push((id_copy, t));
                proof {
                    assert(out@.map_values(|p: (String, String)| (p.0@, p.1@)) =~= prev.map_values(
                        |p: (String, String)| (p.0@, p.1@),
                    ) + seq![(node_id@, out@[out@.len() - 1].1@)]);
                }
            },
            None => {},
        }
        i = i + 1;
    }
    proof {
        assert(doc_links(node_id@, linesv.skip(n as int)) =~= Seq::<(Seq<char>, Seq<char>)>::empty());
        assert(doc_links(node_id@, linesv) =~= out@.map_values(
            |p: (String, String)| (p.0@, p.1@),
        ));
    }
    out
}

fn copy_str(s: &str) -> (r: String)
    ensures
        r@ == s@,
{
    let v = str_chars(s);
    chars_string(&v)
}

pub open spec fn nodes_v(s: Seq<RoamNode>) -> Seq<NodeModel> {
    s.map_values(|n: RoamNode| n@)
}

pub open spec fn links_v(s: Seq<RoamLink>) -> Seq<LinkModel> {
    s.map_values(|l: RoamLink| l@)
}

/// First node with the given identifier, or -1.
pub open spec fn find_node(ns: Seq<NodeModel>, id: Seq<char>) -> int
    decreases ns.len(),
{
    if ns.len() == 0 {
        -1
    } else if ns[0].id == id {
        0
    } else {
        let r = find_node(ns.drop_first(), id);
        if r == -1 {
            -1
        } else {
            r + 1
        }
    }
}

proof fn lemma_find_node(ns: Seq<NodeModel>, id: Seq<char>, k: int)
    requires
        0 <= k <= ns.len(),
        forall|j: int| 0 <= j < k ==> (#[trigger] ns[j]).id != id,
        k == ns.len() || ns[k].id == id,
    ensures
        find_node(ns, id) == if k == ns.len() {
            -1int
        } else {
            k
        },
    decreases ns.len(),
{
    if ns.len() > 0 && k > 0 {
        assert(forall|j: int| 0 <= j < k - 1 ==> ns.drop_first()[j] == ns[j + 1]);
        lemma_find_node(ns.drop_first(), id, k - 1);
    }
}

proof fn lemma_find_node_bounds(ns: Seq<NodeModel>, id: Seq<char>)
    ensures
        find_node(ns, id) == -1 || (0 <= find_node(ns, id) < ns.len() && ns[find_node(
            ns,
            id,
        )].id == id),
    decreases ns.len(),
{
    if ns.len() > 0 && ns[0].id != id {
        lemma_find_node_bounds(ns.drop_first(), id);
    }
}

/// One edge triple stands for one link, endpoints resolved to the first
/// node with each identifier.
pub open spec fn edge_matches(e: (u64, u64, u64), ns: Seq<NodeModel>, l: LinkModel) -> bool {
    &&& 0 <= e.0 < ns.len()
    &&& 0 <= e.1 < ns.len()
    &&& e.0 == find_node(ns, l.source)
    &&& e.1 == find_node(ns, l.target)
}

pub open spec fn roam_wf(
    g: petgraph::graph::Graph<u64, u64, petgraph::Directed, usize>,
    ns: Seq<NodeModel>,
    ls: Seq<LinkModel>,
) -> bool {
    &&& graph_node_list(g).len() == ns.len()
    &&& graph_edge_list(g).len() == ls.len()
    &&& forall|k: int| 0 <= k < ls.len() ==> edge_matches(#[trigger] graph_edge_list(g)[k], ns, ls[k])
}

/// The note graph: nodes, deduplicated links, and the adjacency structure
/// they were entered into.
pub struct OrgRoamGraph {
    graph: petgraph::graph::Graph<u64, u64, petgraph::Directed, usize>,
    nodes: Vec<RoamNode>,
    links: Vec<RoamLink>,
}

impl OrgRoamGraph {
    pub closed spec fn node_models(&self) -> Seq<NodeModel> {
        nodes_v(self.nodes@)
    }

    pub closed spec fn link_models(&self) -> Seq<LinkModel> {
        links_v(self.links@)
    }

    pub closed spec fn wf(&self) -> bool {
        roam_wf(self.graph, self.node_models(), self.link_models())
    }

    /// The graph's nodes, in insertion order.
    pub fn node_data(&self) -> (r: Vec<RoamNode>)
        ensures
            nodes_v(r@) == self.node_models(),
    {
        clone_nodes(&self.nodes)
    }

    /// The graph's links, in insertion order.
    pub fn link_data(&self) -> (r: Vec<RoamLink>)
        ensures
            links_v(r@) == self.link_models(),
    {
        let mut out: Vec<RoamLink> = Vec::new();
        let n = self.links.len();
        let mut i: usize = 0;
        proof {
            assert(links_v(out@) =~= self.link_models().take(0));
        }
        while i < n
            invariant
                0 <= i <= n,
                n == self.links@.len(),
                links_v(out@) =~= self.link_models().take(i as int),
            decreases n - i,
        {
            let l = &self.links[i];
            let copy = RoamLink { source: l.source.clone(), target: l.target.clone() };
            let ghost prev = out@;
            out.push(copy);
            proof {
                assert(links_v(out@) =~= links_v(prev).push(self.links@[i as int]@));
                assert(links_v(out@) =~= self.link_models().take(i + 1));
            }
            i = i + 1;
        }
        proof {
            assert(self.link_models().take(n as int) =~= self.link_models());
        }
        out
    }

    /// The nodes that link to `node_id`, most recently added link first.
    pub fn backlinks_for(&self, node_id: &str) -> (r: Vec<RoamNode>)
        requires
            self.wf(),
        ensures
            nodes_v(r@) == backlinks_spec(self.node_models(), self.link_models(), node_id@),
    {
        let ghost ns = self.node_models();
        let ghost ls = self.link_models();
        let idx = match find_node_exec(&self.nodes, node_id) {
            None => {
                return Vec::new();
            },
            Some(i) => i,
        };
        let srcs = graph_incoming_sources(&self.graph, idx);
        let ghost es = graph_edge_list(self.graph);
        let ghost expected = kept_links(ls, ns, idx as int).map_values(
            |l: LinkModel| ns[find_node(ns, l.source)],
        ).reverse();
        proof {
            lemma_backlinks_align(es, ns, ls, idx as int);
            assert(srcs@.map_values(|x: usize| x as u64) == incoming_sources_of(es, idx as int));
            assert(incoming_sources_of(es, idx as int).len() == kept_edges(es, idx as int).len());
            assert(expected.len() == kept_links(ls, ns, idx as int).len());
            assert(srcs@.len() == expected.len());
            assert forall|j: int| 0 <= j < srcs@.len() implies (#[trigger] srcs@[j])
                < self.nodes@.len() && expected[j] == ns[srcs@[j] as int] by {
                let ke = kept_edges(es, idx as int);
                let kl = kept_links(ls, ns, idx as int);
                let srcs_m = srcs@.map_values(|x: usize| x as u64);
                assert(srcs_m[j] == srcs@[j] as u64);
                assert(srcs_m[j] == ke.map_values(|e: (u64, u64, u64)| e.0).reverse()[j]);
                assert(ke.map_values(|e: (u64, u64, u64)| e.0).reverse()[j] == ke.map_values(
                    |e: (u64, u64, u64)| e.0,
                )[ke.len() - 1 - j]);
                assert(ke.map_values(|e: (u64, u64, u64)| e.0)[ke.len() - 1 - j] == ke[ke.len() - 1
                    - j].0);
                assert(ke[ke.len() - 1 - j].0 < ns.len());
                assert(expected[j] == kl.map_values(|l: LinkModel| ns[find_node(ns, l.source)])[
                    kl.len() - 1 - j]);
                assert(ns[ke[ke.len() - 1 - j].0 as int] == ns[find_node(
                    ns,
                    kl[ke.len() - 1 - j].source,
                )]);
            }
        }
        let mut out: Vec<RoamNode> = Vec::new();
        let m = srcs.len();
        let mut i: usize = 0;
        proof {
            assert(nodes_v(out@) =~= expected.take(0));
        }
        while i < m
            invariant
                0 <= i <= m,
                m == srcs@.len(),
                m == expected.len(),
                ns == self.node_models(),
                forall|j: int| 0 <= j < m ==> (#[trigger] srcs@[j]) < self.nodes@.len()
                    && expected[j] == ns[srcs@[j] as int],
                nodes_v(out@) =~= expected.take(i as int),
            decreases m - i,
        {
            let s = srcs[i];
            let node = clone_node(&self.nodes[s]);
            let ghost prev = out@;
            out.push(node);
            proof {
                assert(nodes_v(out@) =~= nodes_v(prev).push(ns[srcs@[i as int] as int]));
                assert(nodes_v(out@) =~= expected.take(i + 1));
            }
            i = i + 1;
        }
        proof {
            assert(expected.take(m as int) =~= expected);
        }
        out
    }
}

/// The links whose target resolves to node `idx`.
pub open spec fn kept_links(ls: Seq<LinkModel>, ns: Seq<NodeModel>, idx: int) -> Seq<LinkModel> {
    ls.filter(|l: LinkModel| find_node(ns, l.target) == idx)
}

/// The backlink view of a node: the sources of its incoming links, most
/// recent first; empty for an unknown identifier.
pub open spec fn backlinks_spec(ns: Seq<NodeModel>, ls: Seq<LinkModel>, id: Seq<char>) -> Seq<
    NodeModel,
> {
    let idx = find_node(ns, id);
    if idx == -1 {
        Seq::empty()
    } else {
        kept_links(ls, ns, idx).map_values(|l: LinkModel| ns[find_node(ns, l.source)]).reverse()
    }
}

proof fn lemma_backlinks_align(
    es: Seq<(u64, u64, u64)>,
    ns: Seq<NodeModel>,
    ls: Seq<LinkModel>,
    idx: int,
)
    requires
        es.len() == ls.len(),
        forall|k: int| 0 <= k < ls.len() ==> edge_matches(#[trigger] es[k], ns, ls[k]),
        0 <= idx < ns.len(),
        idx <= u64::MAX,
    ensures
        kept_edges(es, idx).len() == kept_links(ls, ns, idx).len(),
        forall|j: int|
            0 <= j < kept_edges(es, idx).len() ==> (#[trigger] kept_edges(es, idx)[j]).0
                < ns.len() && ns[kept_edges(es, idx)[j].0 as int] == ns[find_node(
                ns,
                kept_links(ls, ns, idx)[j].source,
            )],
    decreases es.len(),
{
    reveal(Seq::filter);
    if es.len() == 0 {
        assert(kept_edges(es, idx) =~= Seq::<(u64, u64, u64)>::empty());
        assert(kept_links(ls, ns, idx) =~= Seq::<LinkModel>::empty());
    } else {
        assert(forall|k: int| 0 <= k < ls.len() - 1 ==> es.drop_last()[k] == es[k]
            && ls.drop_last()[k] == ls[k]);
        lemma_backlinks_align(es.drop_last(), ns, ls.drop_last(), idx);
        let e = es.last();
        let l = ls.last();
        assert(edge_matches(e, ns, l));
        lemma_find_node_bounds(ns, l.target);
        if e.1 == idx as u64 {
            assert(find_node(ns, l.target) == idx);
            assert(kept_edges(es, idx) =~= kept_edges(es.drop_last(), idx).push(e));
            assert(kept_links(ls, ns, idx) =~= kept_links(ls.drop_last(), ns, idx).push(l));
            assert forall|j: int| 0 <= j < kept_edges(es, idx).len() implies (
            #[trigger] kept_edges(es, idx)[j]).0 < ns.len() && ns[kept_edges(es, idx)[j].0 as int]
                == ns[find_node(ns, kept_links(ls, ns, idx)[j].source)] by {
                if j < kept_edges(es.drop_last(), idx).len() {
                    assert(kept_edges(es, idx)[j] == kept_edges(es.drop_last(), idx)[j]);
                    assert(kept_links(ls, ns, idx)[j] == kept_links(ls.drop_last(), ns, idx)[j]);
                } else {
                    assert(kept_edges(es, idx)[j] == e);
                    assert(kept_links(ls, ns, idx)[j] == l);
                    lemma_find_node_bounds(ns, l.source);
                }
            }
        } else {
            assert(find_node(ns, l.target) != idx);
            assert(kept_edges(es, idx) =~= kept_edges(es.drop_last(), idx));
            assert(kept_links(ls, ns, idx) =~= kept_links(ls.drop_last(), ns, idx));
        }
    }
}

fn clone_node(n: &RoamNode) -> (r: RoamNode)
    ensures
        r@ == n@,
{
    let mut tags: Vec<String> = Vec::new();
    let m = n.tags.len();
    let mut i: usize = 0;
    proof {
        assert(tags@.map_values(|t: String| t@) =~= n@.tags.take(0));
    }
    while i < m
        invariant
            0 <= i <= m,
            m == n.tags@.len(),
            tags@.map_values(|t: String| t@) =~= n@.tags.take(i as int),
        decreases m - i,
    {
        let ghost prev = tags@;
        tags.push(n.tags[i].clone());
        proof {
            assert(tags@.map_values(|t: String| t@) =~= prev.map_values(|t: String| t@).push(
                n.tags@[i as int]@,
            ));
        }
        i = i + 1;
    }
    proof {
        assert(n@.tags.take(m as int) =~= n@.tags);
    }
    let r = RoamNode {
        id: n.id.clone(),
        title: n.title.clone(),
        path: n.path.clone(),
        tags,
    };
    proof {
        assert(r@ =~= n@);
    }
    r
}

fn clone_nodes(v: &Vec<RoamNode>) -> (r: Vec<RoamNode>)
    ensures
        nodes_v(r@) == nodes_v(v@),
{
    let mut out: Vec<RoamNode> = Vec::new();
    let n = v.len();
    let mut i: usize = 0;
    proof {
        assert(nodes_v(out@) =~= nodes_v(v@).take(0));
    }
    while i < n
        invariant
            0 <= i <= n,
            n == v@.len(),
            nodes_v(out@) =~= nodes_v(v@).take(i as int),
        decreases n - i,
    {
        let node = clone_node(&v[i]);
        let ghost prev = out@;
        out.push(node);
        proof {
            assert(nodes_v(out@) =~= nodes_v(prev).push(v@[i as int]@));
            assert(nodes_v(out@) =~= nodes_v(v@).take(i + 1));
        }
        i = i + 1;
    }
    proof {
        assert(nodes_v(v@).take(n as int) =~= nodes_v(v@));
    }
    out
}

fn find_node_exec(nodes: &Vec<RoamNode>, id: &str) -> (r: Option<usize>)
    ensures
        (match r {
            Some(i) => find_node(nodes_v(nodes@), id@) == i as int && i < nodes@.len(),
            None => find_node(nodes_v(nodes@), id@) == -1,
        }),
{
    let n = nodes.len();
    let mut i: usize = 0;
    while i < n
        invariant
            0 <= i <= n,
            n == nodes@.len(),
            forall|j: int| 0 <= j < i ==> (#[trigger] nodes_v(nodes@)[j]).id != id@,
        decreases n - i,
    {
        proof {
            assert(nodes_v(nodes@)[i as int] == nodes@[i as int]@);
        }
        if str_equal(&nodes[i].id, id) {
            proof {
                lemma_find_node(nodes_v(nodes@), id@, i as int);
            }
            return Some(i);
        }
        i = i + 1;
    }
    proof {
        lemma_find_node(nodes_v(nodes@), id@, n as int);
    }
    None
}

fn str_equal(a: &String, b: &str) -> (r: bool)
    ensures
        r == (a@ == b@),
{
    let av = str_chars(a.as_str());
    let bv = str_chars(b);
    crate::text::chars_eq(&av, &bv)
}

/// The note nodes of a document list: one per `.org` document, titled by
/// its identifier.
pub open spec fn roam_nodes_spec(ds: Seq<(String, String)>) -> Seq<NodeModel>
    decreases ds.len(),
{
    if ds.len() == 0 {
        Seq::empty()
    } else {
        let head: Seq<NodeModel> = if is_roam_file_spec(ds[0].0@) {
            seq![
                NodeModel {
                    id: node_id_spec(ds[0].0@),
                    title: node_id_spec(ds[0].0@),
                    path: ds[0].0@,
                    tags: Seq::empty(),
                },
            ]
        } else {
            Seq::empty()
        };
        head + roam_nodes_spec(ds.drop_first())
    }
}

/// Every link of every note document, in scan order.
pub open spec fn all_roam_links(ds: Seq<(String, String)>) -> Seq<(Seq<char>, Seq<char>)>
    decreases ds.len(),
{
    if ds.len() == 0 {
        Seq::empty()
    } else {
        let head: Seq<(Seq<char>, Seq<char>)> = if is_roam_file_spec(ds[0].0@) {
            doc_links(node_id_spec(ds[0].0@), lines_of(ds[0].1@))
        } else {
            Seq::empty()
        };
        head + all_roam_links(ds.drop_first())
    }
}

/// Walks the pending links: self-links and repeats are dropped, and a
/// link survives only when both endpoints name known nodes.
pub open spec fn dedup_fold(
    pend: Seq<(Seq<char>, Seq<char>)>,
    ns: Seq<NodeModel>,
    acc: Seq<LinkModel>,
    seen: Seq<(Seq<char>, Seq<char>)>,
) -> Seq<LinkModel>
    decreases pend.len(),
{
    if pend.len() == 0 {
        acc
    } else {
        let l = pend[0];
        if l.0 == l.1 || seen.contains(l) {
            dedup_fold(pend.drop_first(), ns, acc, seen)
        } else {
            let seen2 = seen.push(l);
            if find_node(ns, l.0) == -1 || find_node(ns, l.1) == -1 {
                dedup_fold(pend.drop_first(), ns, acc, seen2)
            } else {
                dedup_fold(
                    pend.drop_first(),
                    ns,
                    acc.push(LinkModel { source: l.0, target: l.1 }),
                    seen2,
                )
            }
        }
    }
}

/// The links the graph keeps.
pub open spec fn roam_links_spec(ds: Seq<(String, String)>) -> Seq<LinkModel> {
    dedup_fold(all_roam_links(ds), roam_nodes_spec(ds), Seq::empty(), Seq::empty())
}

/// Builds the note graph of the `(path, text)` documents.
pub fn build_roam_graph(documents: &Vec<(String, String)>) -> (r: OrgRoamGraph)
    ensures
        r.node_models() == roam_nodes_spec(documents@),
        r.link_models() == roam_links_spec(documents@),
        r.wf(),
{
    let mut graph = graph_new();
    let mut nodes: Vec<RoamNode> = Vec::new();
    let mut pending: Vec<(String, String)> = Vec::new();
    let n = documents.len();
    let mut i: usize = 0;
    proof {
        assert(documents@.skip(0) =~= documents@);
        assert(nodes_v(nodes@) =~= Seq::<NodeModel>::empty());
        assert(pending@.map_values(|p: (String, String)| (p.0@, p.1@)) =~= Seq::<(
            Seq<char>,
            Seq<char>,
        )>::empty());
    }
    while i < n
        invariant
            0 <= i <= n,
            n == documents@.len(),
            nodes_v(nodes@) + roam_nodes_spec(documents@.skip(i as int)) =~= roam_nodes_spec(
                documents@,
            ),
            pending@.map_values(|p: (String, String)| (p.0@, p.1@)) + all_roam_links(
                documents@.skip(i as int),
            ) =~= all_roam_links(documents@),
            graph_node_list(graph) =~= Seq::new(nodes@.len(), |j: int| j as u64),
            graph_edge_list(graph) =~= Seq::<(u64, u64, u64)>::empty(),
        decreases n - i,
    {
        let doc = &documents[i];
        proof {
            assert(documents@.skip(i as int)[0] == documents@[i as int]);
            assert(documents@.skip(i as int).drop_first() =~= documents@.skip(i + 1));
        }
        if is_roam_file(doc.0.as_str()) {
            let id = compute_node_id(doc.0.as_str());
            let node = RoamNode {
                id: id.clone(),
                title: id.clone(),
                path: copy_str(doc.0.as_str()),
                tags: Vec::new(),
            };
            let ghost prev_nodes = nodes_v(nodes@);
            let idx = graph_add_node(&mut graph, nodes.len() as u64);
            nodes.push(node);
            proof {
                assert(nodes_v(nodes@) =~~= prev_nodes.push(
                    NodeModel {
                        id: id@,
                        title: id@,
                        path: documents@[i as int].0@,
                        tags: Seq::empty(),
                    },
                ));
                assert(graph_node_list(graph) =~= Seq::new(nodes@.len(), |j: int| j as u64));
            }
            let links = extract_links(id.as_str(), doc.1.as_str());
            let ghost prev_pend = pending@.map_values(|p: (String, String)| (p.0@, p.1@));
            let ghost link_part = doc_links(id@, lines_of(documents@[i as int].1@));
            append_pairs(&mut pending, &links);
            proof {
                assert(pending@.map_values(|p: (String, String)| (p.0@, p.1@)) =~= prev_pend
                    + link_part);
            }
        }
        i = i + 1;
    }
    proof {
        assert(roam_nodes_spec(documents@.skip(n as int)) =~= Seq::<NodeModel>::empty());
        assert(all_roam_links(documents@.skip(n as int)) =~= Seq::<(Seq<char>, Seq<char>)>::empty());
        assert(nodes_v(nodes@) =~= roam_nodes_spec(documents@));
        assert(pending@.map_values(|p: (String, String)| (p.0@, p.1@)) =~= all_roam_links(
            documents@,
        ));
    }
    let ghost ns = nodes_v(nodes@);
    let ghost all_pend = pending@.map_values(|p: (String, String)| (p.0@, p.1@));
    let mut links: Vec<RoamLink> = Vec::new();
    let mut seen: Vec<(String, String)> = Vec::new();
    let m = pending.len();
    let mut j: usize = 0;
    proof {
        assert(all_pend.skip(0) =~= all_pend);
        assert(links_v(links@) =~= Seq::<LinkModel>::empty());
        assert(seen@.map_values(|p: (String, String)| (p.0@, p.1@)) =~= Seq::<(
            Seq<char>,
            Seq<char>,
        )>::empty());
    }
    while j < m
        invariant
            0 <= j <= m,
            m == pending@.len(),
            all_pend == pending@.map_values(|p: (String, String)| (p.0@, p.1@)),
            ns == nodes_v(nodes@),
            dedup_fold(all_pend.skip(j as int), ns, links_v(links@), seen@.map_values(
                |p: (String, String)| (p.0@, p.1@),
            )) == dedup_fold(all_pend, ns, Seq::empty(), Seq::empty()),
            graph_node_list(graph).len() == ns.len(),
            graph_edge_list(graph).len() == links_v(links@).len(),
            forall|k: int| 0 <= k < links@.len() ==> edge_matches(
                #[trigger] graph_edge_list(graph)[k],
                ns,
                links_v(links@)[k],
            ),
        decreases m - j,
    {
        let pair = &pending[j];
        proof {
            assert(all_pend.skip(j as int)[0] == (pair.0@, pair.1@));
            assert(all_pend.skip(j as int).drop_first() =~= all_pend.skip(j + 1));
        }
        let self_link = str_equal(&pair.0, pair.1.as_str());
        let in_seen = seen_contains(&seen, pair);
        if self_link || in_seen {
        } else {
            let ghost prev_seen = seen@.map_values(|p: (String, String)| (p.0@, p.1@));
            let seen_entry = (pair.0.clone(), pair.1.clone());
            seen.push(seen_entry);
            proof {
                assert(seen@.map_values(|p: (String, String)| (p.0@, p.1@)) =~= prev_seen.push(
                    (pair.0@, pair.1@),
                ));
            }
            let a_opt = find_node_exec(&nodes, pair.0.as_str());
            let b_opt = find_node_exec(&nodes, pair.1.as_str());
            match (a_opt, b_opt) {
                (Option::Some(a), Option::Some(b)) => {
                    let ghost prev_links = links_v(links@);
                    let ghost prev_edges = graph_edge_list(graph);
                    graph_add_edge(&mut graph, a, b, links.len() as u64);
                    links.push(
                        RoamLink { source: pair.0.clone(), target: pair.1.clone() },
                    );
                    proof {
                        assert(links_v(links@) =~= prev_links.push(
                            LinkModel { source: pair.0@, target: pair.1@ },
                        ));
                        assert(graph_edge_list(graph) =~= prev_edges.push(
                            (a as u64, b as u64, prev_links.len() as u64),
                        ));
                        assert forall|k: int| 0 <= k < links@.len() implies edge_matches(
                            #[trigger] graph_edge_list(graph)[k],
                            ns,
                            links_v(links@)[k],
                        ) by {
                            if k < prev_links.len() {
                                assert(graph_edge_list(graph)[k] == prev_edges[k]);
                                assert(links_v(links@)[k] == prev_links[k]);
                            }
                        }
                    }
                },
                _ => {},
            }
        }
        j = j + 1;
    }
    proof {
        assert(all_pend.skip(m as int) =~= Seq::<(Seq<char>, Seq<char>)>::empty());
        assert(links_v(links@) =~= roam_links_spec(documents@));
    }
    OrgRoamGraph { graph, nodes, links }
}

fn append_pairs(dst: &mut Vec<(String, String)>, src: &Vec<(String, String)>)
    ensures
        final(dst)@.map_values(|p: (String, String)| (p.0@, p.1@)) =~= old(dst)@.map_values(
            |p: (String, String)| (p.0@, p.1@),
        ) + src@.map_values(|p: (String, String)| (p.0@, p.1@)),
{
    let ghost srcv = src@.map_values(|p: (String, String)| (p.0@, p.1@));
    let ghost base = old(dst)@.map_values(|p: (String, String)| (p.0@, p.1@));
    let n = src.len();
    let mut i: usize = 0;
    proof {
        assert(dst@.map_values(|p: (String, String)| (p.0@, p.1@)) =~= base + srcv.take(0));
    }
    while i < n
        invariant
            0 <= i <= n,
            n == src@.len(),
            srcv == src@.map_values(|p: (String, String)| (p.0@, p.1@)),
            base == old(dst)@.map_values(|p: (String, String)| (p.0@, p.1@)),
            dst@.map_values(|p: (String, String)| (p.0@, p.1@)) =~= base + srcv.take(i as int),
        decreases n - i,
    {
        let ghost prev = dst@.map_values(|p: (String, String)| (p.0@, p.1@));
        let item = (src[i].0.clone(), src[i].1.clone());
        proof {
            assert((item.0@, item.1@) == srcv[i as int]);
        }
        dst.push(item);
        proof {
            assert(dst@.map_values(|p: (String, String)| (p.0@, p.1@)) =~= prev.push(
                srcv[i as int],
            ));
            assert(prev.push(srcv[i as int]) =~= base + srcv.take(i + 1));
        }
        i = i + 1;
    }
    proof {
        assert(srcv.take(n as int) =~= srcv);
    }
}

fn seen_contains(seen: &Vec<(String, String)>, pair: &(String, String)) -> (r: bool)
    ensures
        r == seen@.map_values(|p: (String, String)| (p.0@, p.1@)).contains((pair.0@, pair.1@)),
{
    let n = seen.len();
    let mut i: usize = 0;
    while i < n
        invariant
            0 <= i <= n,
            n == seen@.len(),
            forall|j: int| 0 <= j < i ==> (#[trigger] seen@[j].0@, seen@[j].1@) != (
                pair.0@,
                pair.1@,
            ),
        decreases n - i,
    {
        let e = &seen[i];
        let s_eq = str_equal(&e.0, pair.0.as_str());
        let t_eq = str_equal(&e.1, pair.1.as_str());
        if s_eq && t_eq {
            proof {
                let mv = seen@.map_values(|p: (String, String)| (p.0@, p.1@));
                assert(mv[i as int] == (pair.0@, pair.1@));
            }
            return true;
        }
        i = i + 1;
    }
    proof {
        let mv = seen@.map_values(|p: (String, String)| (p.0@, p.1@));
        if mv.contains((pair.0@, pair.1@)) {
            let w = choose|k: int| 0 <= k < mv.len() && mv[k] == (pair.0@, pair.1@);
            assert((seen@[w].0@, seen@[w].1@) == (pair.0@, pair.1@));
        }
    }
    false
}

} // verus!
