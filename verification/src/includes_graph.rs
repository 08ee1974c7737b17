//! The graph of which file pulls in which, and the search for files that
//! lack the custom-gates pragma although a file they reach uses the feature.

use vstd::prelude::*;
use vstd::hash_map::StringHashMap;
use vstd::string::StringExecFns;
use crate::paths::base_name;
use crate::paths::file_name;
use crate::paths::normalize_path;
use crate::paths::normalized;

verus! {

/// One parsed file.
pub struct IncludesNode {
    pub path: String,
    pub custom_gates_pragma: bool,
}

/// The graph. Nodes are numbered in the order in which they were added. An
/// edge is stored under the path of the file that is pulled in and names the
/// node that pulls it in, so it can be recorded before its target has a node.
pub struct IncludesGraph {
    nodes: Vec<IncludesNode>,
    adjacency: StringHashMap<Vec<usize>>,
    custom_gates_nodes: Vec<usize>,
}

/// The mathematical content of an [`IncludesNode`].
pub struct NodeView {
    pub path: Seq<char>,
    pub custom_gates_pragma: bool,
}

impl View for IncludesNode {
    type V = NodeView;

    open spec fn view(&self) -> NodeView {
        NodeView { path: self.path@, custom_gates_pragma: self.custom_gates_pragma }
    }
}

/// The mathematical content of an [`IncludesGraph`].
pub struct GraphView {
    /// The nodes, by number.
    pub nodes: Seq<NodeView>,
    /// For a path, the nodes that pull the file at that path in, one entry for each time.
    pub adjacency: Map<Seq<char>, Seq<usize>>,
    /// The nodes that use custom gates, in the order in which they were added.
    pub roots: Seq<usize>,
}

/// How many of the pairs `(row, 0), .., (row, width - 1)` are not in `used`.
pub open spec fn unused_in_row(used: Set<(int, int)>, row: int, width: int) -> nat
    decreases width,
{
    if width <= 0 {
        0
    } else {
        unused_in_row(used, row, width - 1) + if used.contains((row, width - 1)) {
            0nat
        } else {
            1nat
        }
    }
}

/// How many of the pairs `(a, b)` with `a < rows` and `b < width` are not in `used`.
pub open spec fn unused_in_rows(used: Set<(int, int)>, rows: int, width: int) -> nat
    decreases rows,
{
    if rows <= 0 {
        0
    } else {
        unused_in_rows(used, rows - 1, width) + unused_in_row(used, rows - 1, width)
    }
}

/// Adding a pair to `used` leaves no more pairs of a row unused, and fewer
/// where the pair lies in the row and was unused.
pub proof fn lemma_row_shrinks(used: Set<(int, int)>, edge: (int, int), row: int, width: int)
    ensures
        unused_in_row(used.insert(edge), row, width) <= unused_in_row(used, row, width),
        edge.0 == row && 0 <= edge.1 < width && !used.contains(edge) ==> unused_in_row(
            used.insert(edge),
            row,
            width,
        ) < unused_in_row(used, row, width),
    decreases width,
{
    if width > 0 {
        lemma_row_shrinks(used, edge, row, width - 1);
    }
}

/// Adding a pair to `used` leaves no more pairs unused, and fewer where the
/// pair lies within the rows and was unused.
pub proof fn lemma_rows_shrink(used: Set<(int, int)>, edge: (int, int), rows: int, width: int)
    ensures
        unused_in_rows(used.insert(edge), rows, width) <= unused_in_rows(used, rows, width),
        0 <= edge.0 < rows && 0 <= edge.1 < width && !used.contains(edge) ==> unused_in_rows(
            used.insert(edge),
            rows,
            width,
        ) < unused_in_rows(used, rows, width),
    decreases rows,
{
    if rows > 0 {
        lemma_rows_shrink(used, edge, rows - 1, width);
        lemma_row_shrinks(used, edge, rows - 1, width);
    }
}

impl GraphView {
    /// The nodes that pull in the file of node `node`, one entry for each time they do.
    pub open spec fn includers(self, node: int) -> Seq<usize> {
        let path = self.nodes[node].path;
        if self.adjacency.contains_key(path) {
            self.adjacency[path]
        } else {
            Seq::empty()
        }
    }

    /// How many edges between nodes of the graph a walk that took `used` may still take.
    pub open spec fn unused(self, used: Set<(int, int)>) -> nat {
        unused_in_rows(used, self.nodes.len() as int, self.nodes.len() as int)
    }

    /// The chains that a walk reports from node `from` on, having come along
    /// `path` and over the edges `used`.
    ///
    /// The walk adds the file of `from` to its path. If that file lacks the
    /// pragma, the path so far is a chain to report. The walk then goes on to
    /// each node that pulls the file in, in the order recorded, except over an
    /// edge it has taken before on its way; each branch goes on with its own
    /// record of edges taken.
    pub open spec fn chains_from(self, from: int, path: Seq<Seq<char>>, used: Set<(int, int)>) -> Seq<
        Seq<Seq<char>>,
    >
        decreases self.unused(used), 1int, 0int,
    {
        if 0 <= from < self.nodes.len() {
            let node = self.nodes[from];
            let here = if node.custom_gates_pragma {
                Seq::empty()
            } else {
                seq![path.push(node.path)]
            };
            here + self.chains_over(from, path.push(node.path), used, 0)
        } else {
            Seq::empty()
        }
    }

    /// The chains that the walk reports over the edges into `from` from the `k`-th on.
    pub open spec fn chains_over(
        self,
        from: int,
        path: Seq<Seq<char>>,
        used: Set<(int, int)>,
        k: int,
    ) -> Seq<Seq<Seq<char>>>
        decreases self.unused(used), 0int, self.includers(from).len() - k,
    {
        let edges = self.includers(from);
        if 0 <= from < self.nodes.len() && 0 <= k < edges.len() {
            let to = edges[k] as int;
            let first = if to < self.nodes.len() && !used.contains((from, to)) {
                proof {
                    lemma_rows_shrink(used, (from, to), self.nodes.len() as int, self.nodes.len() as int);
                }
                self.chains_from(to, path, used.insert((from, to)))
            } else {
                Seq::empty()
            };
            first + self.chains_over(from, path, used, k + 1)
        } else {
            Seq::empty()
        }
    }

    /// The chains reported for the roots from the `k`-th on.
    pub open spec fn chains_of_roots(self, k: int) -> Seq<Seq<Seq<char>>>
        decreases self.roots.len() - k,
    {
        if 0 <= k < self.roots.len() {
            self.chains_from(self.roots[k] as int, Seq::empty(), Set::empty()) + self.chains_of_roots(k + 1)
        } else {
            Seq::empty()
        }
    }

    /// Every chain that leads from a file that uses custom gates, through the
    /// files that pull it in, to a file that lacks the pragma.
    pub open spec fn problematic_paths(self) -> Seq<Seq<Seq<char>>> {
        self.chains_of_roots(0)
    }

    /// The graph without nodes and edges.
    pub open spec fn empty() -> GraphView {
        GraphView { nodes: Seq::empty(), adjacency: Map::empty(), roots: Seq::empty() }
    }

    /// The graph with one more node, which is a root if it uses custom gates.
    pub open spec fn with_node(self, path: Seq<char>, custom_gates_pragma: bool, custom_gates_usage: bool) -> GraphView {
        GraphView {
            nodes: self.nodes.push(NodeView { path, custom_gates_pragma }),
            roots: if custom_gates_usage {
                self.roots.push(self.nodes.len() as usize)
            } else {
                self.roots
            },
            ..self
        }
    }

    /// The graph with one more edge: the node added last pulls in the file at `path`.
    pub open spec fn with_edge(self, path: Seq<char>) -> GraphView {
        let target = normalized(path);
        let from = (self.nodes.len() - 1) as usize;
        GraphView {
            adjacency: self.adjacency.insert(
                target,
                if self.adjacency.contains_key(target) {
                    self.adjacency[target].push(from)
                } else {
                    seq![from]
                },
            ),
            ..self
        }
    }
}

/// The arrow between two files of a displayed chain.
pub open spec fn arrow() -> Seq<char> {
    seq![' ', '-', '>', ' ']
}

/// The file names of `chain`, with an arrow between each two.
pub open spec fn displayed(chain: Seq<Seq<char>>) -> Seq<char>
    decreases chain.len(),
{
    if chain.len() == 0 {
        Seq::empty()
    } else if chain.len() == 1 {
        base_name(chain[0])
    } else {
        displayed(chain.drop_last()) + arrow() + base_name(chain.last())
    }
}

impl GraphView {
    /// Some node for the file `file` lacks the pragma.
    pub open spec fn lacks_pragma(self, file: Seq<char>) -> bool {
        exists|n: int|
            0 <= n < self.nodes.len() && (#[trigger] self.nodes[n]).path == file
                && !self.nodes[n].custom_gates_pragma
    }

    /// Some node for the file `outer` pulls in the file `inner` of some node.
    pub open spec fn pulls_in(self, outer: Seq<char>, inner: Seq<char>) -> bool {
        exists|a: int, b: int|
            #![trigger self.nodes[a], self.nodes[b]]
            0 <= a < self.nodes.len() && 0 <= b < self.nodes.len() && self.nodes[a].path == inner
                && self.nodes[b].path == outer && self.includers(a).contains(b as usize)
    }

    /// The file after place `j` of `chain` pulls in the file at place `j`.
    pub open spec fn linked_at(self, chain: Seq<Seq<char>>, j: int) -> bool {
        self.pulls_in(chain[j + 1], chain[j])
    }

    /// Some root of the graph is a node for the file `file`.
    pub open spec fn is_root_file(self, file: Seq<char>) -> bool {
        exists|r: int|
            0 <= r < self.roots.len() && (#[trigger] self.roots[r]) < self.nodes.len()
                && self.nodes[self.roots[r] as int].path == file
    }

    /// `chain` goes on from `path` with the file of `from`, each file from
    /// there on is pulled in by the next, and the last one lacks the pragma.
    pub open spec fn extends(self, chain: Seq<Seq<char>>, path: Seq<Seq<char>>, from: int) -> bool {
        &&& chain.len() > path.len()
        &&& chain.take(path.len() as int) == path
        &&& chain[path.len() as int] == self.nodes[from].path
        &&& self.lacks_pragma(chain.last())
        &&& forall|j: int| path.len() <= j < chain.len() - 1 ==> #[trigger] self.linked_at(chain, j)
    }
}

/// Every chain that a walk from `from` reports goes on from the path the walk
/// came along, through files each pulled in by the next, to a file that
/// lacks the pragma.
pub proof fn lemma_chains_from_extend(graph: GraphView, from: int, path: Seq<Seq<char>>, used: Set<(int, int)>)
    ensures
        forall|k: int|
            0 <= k < graph.chains_from(from, path, used).len() ==> graph.extends(
                #[trigger] graph.chains_from(from, path, used)[k],
                path,
                from,
            ),
    decreases graph.unused(used), 1int, 0int,
{
    if 0 <= from < graph.nodes.len() {
        let node = graph.nodes[from];
        let longer = path.push(node.path);
        let here = if node.custom_gates_pragma {
            Seq::<Seq<Seq<char>>>::empty()
        } else {
            seq![longer]
        };
        let over = graph.chains_over(from, longer, used, 0);
        lemma_chains_over_extend(graph, from, longer, used, 0);
        assert forall|k: int| 0 <= k < (here + over).len() implies graph.extends(
            #[trigger] (here + over)[k],
            path,
            from,
        ) by {
            let chain = (here + over)[k];
            if k < here.len() {
                assert(chain == longer);
                assert(longer.take(path.len() as int) =~= path);
                assert(graph.nodes[from].path == chain.last());
            } else {
                assert(chain == over[k - here.len()]);
                assert(chain.take(longer.len() as int) == longer);
                assert(chain.take(path.len() as int) =~= longer.take(path.len() as int));
                assert(longer.take(path.len() as int) =~= path);
                assert(chain[path.len() as int] == chain.take(longer.len() as int)[path.len() as int]);
            }
        }
    }
}

/// The chains over the edges into `from` from the `k`-th on go on from
/// `path`, which ends with the file of `from`.
proof fn lemma_chains_over_extend(
    graph: GraphView,
    from: int,
    path: Seq<Seq<char>>,
    used: Set<(int, int)>,
    k: int,
)
    requires
        0 <= from < graph.nodes.len(),
        path.len() > 0,
        path.last() == graph.nodes[from].path,
    ensures
        forall|i: int|
            0 <= i < graph.chains_over(from, path, used, k).len() ==> {
                let chain = #[trigger] graph.chains_over(from, path, used, k)[i];
                &&& chain.len() > path.len()
                &&& chain.take(path.len() as int) == path
                &&& graph.lacks_pragma(chain.last())
                &&& forall|j: int| path.len() - 1 <= j < chain.len() - 1 ==> #[trigger] graph.linked_at(chain, j)
            },
    decreases graph.unused(used), 0int, graph.includers(from).len() - k,
{
    let edges = graph.includers(from);
    if 0 <= k < edges.len() {
        let to = edges[k] as int;
        let taken = to < graph.nodes.len() && !used.contains((from, to));
        let first = if taken {
            graph.chains_from(to, path, used.insert((from, to)))
        } else {
            Seq::<Seq<Seq<char>>>::empty()
        };
        let rest = graph.chains_over(from, path, used, k + 1);
        if taken {
            lemma_rows_shrink(used, (from, to), graph.nodes.len() as int, graph.nodes.len() as int);
            lemma_chains_from_extend(graph, to, path, used.insert((from, to)));
        }
        lemma_chains_over_extend(graph, from, path, used, k + 1);
        assert forall|i: int| 0 <= i < (first + rest).len() implies {
            let chain = #[trigger] (first + rest)[i];
            &&& chain.len() > path.len()
            &&& chain.take(path.len() as int) == path
            &&& graph.lacks_pragma(chain.last())
            &&& forall|j: int| path.len() - 1 <= j < chain.len() - 1 ==> #[trigger] graph.linked_at(chain, j)
        } by {
            let chain = (first + rest)[i];
            if i < first.len() {
                assert(chain == first[i]);
                assert(graph.extends(chain, path, to));
                assert forall|j: int| path.len() - 1 <= j < chain.len() - 1 implies #[trigger] graph.linked_at(
                    chain,
                    j,
                ) by {
                    if j == path.len() - 1 {
                        assert(chain[j] == chain.take(path.len() as int)[j]);
                        assert(chain[j] == graph.nodes[from].path);
                        assert(chain[j + 1] == graph.nodes[to].path);
                        assert(edges[k] == to as usize);
                        assert(graph.includers(from).contains(to as usize));
                        assert(graph.pulls_in(chain[j + 1], chain[j])) by {
                            let a = from;
                            let b = to;
                            assert(0 <= a < graph.nodes.len() && 0 <= b < graph.nodes.len() && graph.nodes[a].path
                                == chain[j] && graph.nodes[b].path == chain[j + 1] && graph.includers(
                                a,
                            ).contains(b as usize));
                        }
                    } else {
                        assert(graph.linked_at(chain, j));
                    }
                }
            } else {
                assert(chain == rest[i - first.len()]);
            }
        }
    }
}

/// What is reported is a chain: it starts at a file that uses custom gates,
/// each of its files is pulled in by the next, and its last file lacks the pragma.
pub proof fn lemma_problematic_paths_are_chains(graph: GraphView, k: int)
    requires
        0 <= k < graph.problematic_paths().len(),
    ensures
        ({
            let chain = graph.problematic_paths()[k];
            &&& chain.len() > 0
            &&& graph.is_root_file(chain[0])
            &&& graph.lacks_pragma(chain.last())
            &&& forall|j: int| 0 <= j < chain.len() - 1 ==> #[trigger] graph.linked_at(chain, j)
        }),
{
    lemma_chains_of_roots(graph, 0);
}

/// The chains reported for the roots from `first` on are chains in this sense.
proof fn lemma_chains_of_roots(graph: GraphView, first: int)
    requires
        0 <= first,
    ensures
        forall|k: int|
            0 <= k < graph.chains_of_roots(first).len() ==> {
                let chain = #[trigger] graph.chains_of_roots(first)[k];
                &&& chain.len() > 0
                &&& graph.is_root_file(chain[0])
                &&& graph.lacks_pragma(chain.last())
                &&& forall|j: int| 0 <= j < chain.len() - 1 ==> #[trigger] graph.linked_at(chain, j)
            },
    decreases graph.roots.len() - first,
{
    if first < graph.roots.len() {
        let root = graph.roots[first] as int;
        let here = graph.chains_from(root, Seq::empty(), Set::empty());
        let rest = graph.chains_of_roots(first + 1);
        lemma_chains_from_extend(graph, root, Seq::empty(), Set::empty());
        lemma_chains_of_roots(graph, first + 1);
        assert forall|k: int| 0 <= k < (here + rest).len() implies {
            let chain = #[trigger] (here + rest)[k];
            &&& chain.len() > 0
            &&& graph.is_root_file(chain[0])
            &&& graph.lacks_pragma(chain.last())
            &&& forall|j: int| 0 <= j < chain.len() - 1 ==> #[trigger] graph.linked_at(chain, j)
        } by {
            let chain = (here + rest)[k];
            if k < here.len() {
                assert(chain == here[k]);
                assert(graph.extends(chain, Seq::empty(), root));
                assert(root < graph.nodes.len());
                assert(graph.roots[first] < graph.nodes.len());
                assert(graph.is_root_file(chain[0]));
            } else {
                assert(chain == rest[k - here.len()]);
            }
        }
    }
}

/// Where every file has the pragma, nothing is reported; and where nothing
/// is reported, every file that uses custom gates has the pragma.
pub proof fn lemma_no_report_iff_roots_comply(graph: GraphView)
    ensures
        (forall|n: int| 0 <= n < graph.nodes.len() ==> (#[trigger] graph.nodes[n]).custom_gates_pragma)
            ==> graph.problematic_paths().len() == 0,
        graph.problematic_paths().len() == 0 ==> forall|r: int|
            0 <= r < graph.roots.len() && (#[trigger] graph.roots[r]) < graph.nodes.len()
                ==> graph.nodes[graph.roots[r] as int].custom_gates_pragma,
{
    if graph.problematic_paths().len() > 0 {
        lemma_problematic_paths_are_chains(graph, 0);
    }
    lemma_bare_root_is_reported(graph, 0);
}

/// A root without the pragma is itself reported.
proof fn lemma_bare_root_is_reported(graph: GraphView, first: int)
    requires
        0 <= first,
    ensures
        graph.chains_of_roots(first).len() == 0 ==> forall|r: int|
            first <= r < graph.roots.len() && (#[trigger] graph.roots[r]) < graph.nodes.len()
                ==> graph.nodes[graph.roots[r] as int].custom_gates_pragma,
    decreases graph.roots.len() - first,
{
    if first < graph.roots.len() {
        lemma_bare_root_is_reported(graph, first + 1);
    }
}

impl GraphView {
    /// Every root and every edge names a node of the graph.
    pub open spec fn well_formed(self) -> bool {
        &&& forall|r: int| 0 <= r < self.roots.len() ==> (#[trigger] self.roots[r]) < self.nodes.len()
        &&& forall|path: Seq<char>, k: int|
            self.adjacency.contains_key(path) && 0 <= k < self.adjacency[path].len()
                ==> (#[trigger] self.adjacency[path][k]) < self.nodes.len()
    }
}

/// A graph that is built node by node and edge by edge names only nodes it
/// has: the empty graph does, and adding a node or, once there is a node, an
/// edge keeps it so.
pub proof fn lemma_built_graph_is_well_formed(
    graph: GraphView,
    path: Seq<char>,
    custom_gates_pragma: bool,
    custom_gates_usage: bool,
)
    requires
        graph.well_formed(),
        graph.nodes.len() < usize::MAX,
    ensures
        GraphView::empty().well_formed(),
        graph.with_node(path, custom_gates_pragma, custom_gates_usage).well_formed(),
        graph.nodes.len() > 0 ==> graph.with_edge(path).well_formed(),
{
    let grown = graph.with_node(path, custom_gates_pragma, custom_gates_usage);
    assert forall|r: int| 0 <= r < grown.roots.len() implies (#[trigger] grown.roots[r]) < grown.nodes.len() by {
        if r < graph.roots.len() {
            assert(grown.roots[r] == graph.roots[r]);
        }
    }
    if graph.nodes.len() > 0 {
        let linked = graph.with_edge(path);
        let target = normalized(path);
        assert forall|p: Seq<char>, k: int|
            linked.adjacency.contains_key(p) && 0 <= k < linked.adjacency[p].len() implies (
        #[trigger] linked.adjacency[p][k]) < linked.nodes.len() by {
            if p == target {
                if graph.adjacency.contains_key(target) && k < graph.adjacency[target].len() {
                    assert(linked.adjacency[p][k] == graph.adjacency[target][k]);
                }
            } else {
                assert(graph.adjacency.contains_key(p));
                assert(linked.adjacency[p][k] == graph.adjacency[p][k]);
            }
        }
    }
}

/// The edges of `edges` as a set of pairs of node numbers.
pub open spec fn edge_set(edges: Seq<(usize, usize)>) -> Set<(int, int)> {
    Set::new(
        |e: (int, int)| exists|i: int| 0 <= i < edges.len() && (#[trigger] edges[i]).0 == e.0 && edges[i].1 == e.1,
    )
}

/// The chains of `list` as sequences of paths.
pub open spec fn chain_views(list: Seq<Vec<String>>) -> Seq<Seq<Seq<char>>> {
    Seq::new(list.len(), |i: int| list[i].deep_view())
}

/// The views of two lists of chains, one after the other.
proof fn lemma_chain_views_concat(first: Seq<Vec<String>>, second: Seq<Vec<String>>)
    ensures
        chain_views(first + second) == chain_views(first) + chain_views(second),
{
    assert(chain_views(first + second) =~= chain_views(first) + chain_views(second));
}

/// Whether `edges` holds `edge`.
fn has_edge(edges: &Vec<(usize, usize)>, edge: (usize, usize)) -> (b: bool)
    ensures
        b == edge_set(edges@).contains((edge.0 as int, edge.1 as int)),
{
    let mut i: usize = 0;
    while i < edges.len()
        invariant
            i <= edges.len(),
            forall|j: int| 0 <= j < i ==> !((#[trigger] edges@[j]).0 == edge.0 && edges@[j].1 == edge.1),
        decreases edges.len() - i,
    {
        if edges[i].0 == edge.0 && edges[i].1 == edge.1 {
            return true;
        }
        i = i + 1;
    }
    false
}

/// A copy of `edges` with `edge` added.
fn with_edge(edges: &Vec<(usize, usize)>, edge: (usize, usize)) -> (all: Vec<(usize, usize)>)
    ensures
        edge_set(all@) == edge_set(edges@).insert((edge.0 as int, edge.1 as int)),
{
    let mut all: Vec<(usize, usize)> = Vec::new();
    let mut i: usize = 0;
    while i < edges.len()
        invariant
            i <= edges.len(),
            all@ == edges@.take(i as int),
        decreases edges.len() - i,
    {
        all.push(edges[i]);
        assert(all@ =~= edges@.take(i + 1));
        i = i + 1;
    }
    all.push(edge);
    proof {
        assert(edges@.take(i as int) =~= edges@);
        let wanted = edge_set(edges@).insert((edge.0 as int, edge.1 as int));
        assert forall|e: (int, int)| edge_set(all@).contains(e) <==> wanted.contains(e) by {
            if edge_set(all@).contains(e) {
                let k = choose|k: int| 0 <= k < all@.len() && (#[trigger] all@[k]).0 == e.0 && all@[k].1 == e.1;
                if k < edges@.len() {
                    assert(edges@[k].0 == e.0 && edges@[k].1 == e.1);
                }
            }
            if edge_set(edges@).contains(e) {
                let k = choose|k: int| 0 <= k < edges@.len() && (#[trigger] edges@[k]).0 == e.0 && edges@[k].1 == e.1;
                assert(all@[k].0 == e.0 && all@[k].1 == e.1);
            }
            if e == (edge.0 as int, edge.1 as int) {
                assert(all@[edges@.len() as int].0 == e.0 && all@[edges@.len() as int].1 == e.1);
            }
        }
        assert(edge_set(all@) =~= wanted);
    }
    all
}

/// A copy of `chain`.
pub(crate) fn clone_chain(chain: &Vec<String>) -> (copy: Vec<String>)
    ensures
        copy.deep_view() == chain.deep_view(),
{
    let mut copy: Vec<String> = Vec::new();
    let mut i: usize = 0;
    while i < chain.len()
        invariant
            i <= chain.len(),
            copy@.len() == i,
            copy.deep_view() == chain.deep_view().take(i as int),
        decreases chain.len() - i,
    {
        let entry = chain[i].clone();
        let ghost before = copy@;
        copy.push(entry);
        assert(copy.deep_view() =~= chain.deep_view().take(i + 1)) by {
            assert forall|j: int| 0 <= j < i + 1 implies copy.deep_view()[j] == chain.deep_view()[j] by {
                if j < i {
                    assert(copy@[j] == before[j]);
                    assert(chain.deep_view().take(i as int)[j] == chain.deep_view()[j]);
                }
            }
        }
        i = i + 1;
    }
    assert(chain.deep_view().take(i as int) =~= chain.deep_view());
    copy
}

impl View for IncludesGraph {
    type V = GraphView;

    closed spec fn view(&self) -> GraphView {
        GraphView {
            nodes: Seq::new(self.nodes@.len(), |i: int| self.nodes@[i]@),
            adjacency: self.adjacency@.map_values(|v: Vec<usize>| v@),
            roots: self.custom_gates_nodes@,
        }
    }
}

impl IncludesGraph {
    /// A graph without nodes and edges.
    pub fn new() -> (graph: IncludesGraph)
        ensures
            graph@ == GraphView::empty(),
    {
        let graph = IncludesGraph {
            nodes: Vec::new(),
            adjacency: StringHashMap::new(),
            custom_gates_nodes: Vec::new(),
        };
        assert(graph@.nodes =~= Seq::empty());
        assert(graph@.adjacency =~= Map::empty());
        graph
    }

    /// Adds a node for the file at `path`. A file that uses custom gates is a
    /// root of the search for missing pragmas.
    pub fn add_node(&mut self, path: String, custom_gates_pragma: bool, custom_gates_usage: bool)
        ensures
            final(self)@ == old(self)@.with_node(path@, custom_gates_pragma, custom_gates_usage),
    {
        let ghost added = NodeView { path: path@, custom_gates_pragma };
        self.nodes.push(IncludesNode { path, custom_gates_pragma });
        if custom_gates_usage {
            self.custom_gates_nodes.push(self.nodes.len() - 1);
        }
        assert(self@.nodes =~= old(self)@.nodes.push(added));
    }

    /// Records that the node added last pulls in the file at `path`. The edge
    /// is stored under the normal form of `path`.
    pub fn add_edge(&mut self, path: String)
        requires
            old(self)@.nodes.len() > 0,
        ensures
            final(self)@ == old(self)@.with_edge(path@),
    {
        let target = normalize_path(path.as_str());
        let from: usize = self.nodes.len() - 1;
        let mut edges: Vec<usize> = Vec::new();
        match self.adjacency.get(target.as_str()) {
            Some(known) => {
                let mut i: usize = 0;
                while i < known.len()
                    invariant
                        i <= known.len(),
                        edges@ == known@.take(i as int),
                    decreases known.len() - i,
                {
                    edges.push(known[i]);
                    assert(edges@ =~= known@.take(i + 1));
                    i = i + 1;
                }
                assert(known@.take(i as int) =~= known@);
            },
            None => {},
        }
        edges.push(from);
        self.adjacency.insert(target, edges);
        proof {
            assert(self@.adjacency =~= old(self)@.with_edge(path@).adjacency);
            assert(self@.nodes =~= old(self)@.nodes);
        }
    }

    /// The chains a walk from `from` reports; see [`GraphView::chains_from`].
    fn traverse(&self, from: usize, path: &Vec<String>, traversed_edges: &Vec<(usize, usize)>) -> (r: Vec<
        Vec<String>,
    >)
        requires
            from < self@.nodes.len(),
        ensures
            r.deep_view() == self@.chains_from(from as int, path.deep_view(), edge_set(traversed_edges@)),
        decreases self@.unused(edge_set(traversed_edges@)),
    {
        let ghost used = edge_set(traversed_edges@);
        let mut problematic_paths: Vec<Vec<String>> = Vec::new();
        let node = &self.nodes[from];
        assert(self@.nodes[from as int] == node@);
        let mut new_path = clone_chain(path);
        new_path.push(node.path.clone());
        assert(new_path.deep_view() =~= path.deep_view().push(node.path@));
        if !node.custom_gates_pragma {
            let reported = clone_chain(&new_path);
            problematic_paths.push(reported);
            assert(problematic_paths.deep_view() =~= seq![new_path.deep_view()]);
        } else {
            assert(problematic_paths.deep_view() =~= Seq::<Seq<Seq<char>>>::empty());
        }
        match self.adjacency.get(node.path.as_str()) {
            Some(edges) => {
                assert(edges@ == self@.includers(from as int));
                let mut k: usize = 0;
                while k < edges.len()
                    invariant
                        k <= edges.len(),
                        from < self@.nodes.len(),
                        self@.nodes.len() == self.nodes@.len(),
                        used == edge_set(traversed_edges@),
                        edges@ == self@.includers(from as int),
                        self@.chains_from(from as int, path.deep_view(), used) == problematic_paths.deep_view()
                            + self@.chains_over(from as int, new_path.deep_view(), used, k as int),
                    decreases edges.len() - k,
                {
                    let to: usize = edges[k];
                    let edge = (from, to);
                    let ghost before = problematic_paths@;
                    let ghost rest = self@.chains_over(from as int, new_path.deep_view(), used, k + 1);
                    if to < self.nodes.len() && !has_edge(traversed_edges, edge) {
                        let new_traversed_edges = with_edge(traversed_edges, edge);
                        proof {
                            lemma_rows_shrink(
                                used,
                                (from as int, to as int),
                                self@.nodes.len() as int,
                                self@.nodes.len() as int,
                            );
                        }
                        let mut found = self.traverse(to, &new_path, &new_traversed_edges);
                        let ghost first = found@;
                        problematic_paths.append(&mut found);
                        proof {
                            lemma_chain_views_concat(before, first);
                            assert(chain_views(before) + (chain_views(first) + rest) =~= (chain_views(before)
                                + chain_views(first)) + rest);
                        }
                    } else {
                        proof {
                            assert(Seq::<Seq<Seq<char>>>::empty() + rest =~= rest);
                        }
                    }
                    k = k + 1;
                }
                proof {
                    assert(problematic_paths.deep_view() + Seq::<Seq<Seq<char>>>::empty()
                        =~= problematic_paths.deep_view());
                }
            },
            None => {
                proof {
                    assert(self@.includers(from as int) =~= Seq::<usize>::empty());
                    assert(problematic_paths.deep_view() + Seq::<Seq<Seq<char>>>::empty()
                        =~= problematic_paths.deep_view());
                }
            },
        }
        problematic_paths
    }

    /// Every chain that leads from a file that uses custom gates, through the
    /// files that pull it in, to a file that lacks the pragma: for each root
    /// in turn, the chains of the walk from it. A chain lists the paths from
    /// the root to the file at fault.
    pub fn get_problematic_paths(&self) -> (r: Vec<Vec<String>>)
        ensures
            r.deep_view() == self@.problematic_paths(),
    {
        let mut all: Vec<Vec<String>> = Vec::new();
        let start: Vec<String> = Vec::new();
        let none: Vec<(usize, usize)> = Vec::new();
        let mut k: usize = 0;
        proof {
            assert(start.deep_view() =~= Seq::<Seq<char>>::empty());
            assert(edge_set(none@) =~= Set::<(int, int)>::empty());
            assert(all.deep_view() + self@.chains_of_roots(0) =~= self@.chains_of_roots(0));
        }
        while k < self.custom_gates_nodes.len()
            invariant
                k <= self.custom_gates_nodes.len(),
                self@.roots == self.custom_gates_nodes@,
                self@.nodes.len() == self.nodes@.len(),
                start.deep_view() == Seq::<Seq<char>>::empty(),
                edge_set(none@) == Set::<(int, int)>::empty(),
                self@.problematic_paths() == all.deep_view() + self@.chains_of_roots(k as int),
            decreases self.custom_gates_nodes.len() - k,
        {
            let ghost before = all@;
            let ghost rest = self@.chains_of_roots(k + 1);
            let root: usize = self.custom_gates_nodes[k];
            if root < self.nodes.len() {
                let mut found = self.traverse(root, &start, &none);
                let ghost first = found@;
                all.append(&mut found);
                proof {
                    lemma_chain_views_concat(before, first);
                    assert(chain_views(before) + (chain_views(first) + rest) =~= (chain_views(before)
                        + chain_views(first)) + rest);
                }
            } else {
                proof {
                    assert(Seq::<Seq<Seq<char>>>::empty() + rest =~= rest);
                }
            }
            k = k + 1;
        }
        proof {
            assert(all.deep_view() + Seq::<Seq<Seq<char>>>::empty() =~= all.deep_view());
        }
        all
    }

    /// Renders a chain for a message: the file name of each path, with ` -> ` between them.
    pub fn display_path(path: &[String]) -> (text: String)
        ensures
            text@ == displayed(path.deep_view()),
    {
        let ghost chain = path.deep_view();
        let mut text = String::new();
        let mut i: usize = 0;
        proof {
            reveal_strlit(" -> ");
            assert(" -> "@ =~= arrow());
            assert(chain.take(0) =~= Seq::<Seq<char>>::empty());
        }
        while i < path.len()
            invariant
                i <= path.len(),
                chain == path.deep_view(),
                " -> "@ == arrow(),
                text@ == displayed(chain.take(i as int)),
            decreases path.len() - i,
        {
            if i > 0 {
                text.append(" -> ");
            }
            let name = file_name(path[i].as_str());
            text.append(name.as_str());
            proof {
                let upto = chain.take(i + 1);
                assert(upto.drop_last() =~= chain.take(i as int));
                assert(upto.last() == path@[i as int]@);
                if i == 0 {
                    assert(upto[0] == upto.last());
                    assert(Seq::<char>::empty() + base_name(upto[0]) =~= base_name(upto[0]));
                }
            }
            i = i + 1;
        }
        proof {
            assert(chain.take(i as int) =~= chain);
        }
        text
    }
}

impl Default for IncludesGraph {
    fn default() -> (graph: IncludesGraph)
        ensures
            graph@ == GraphView::empty(),
    {
        IncludesGraph::new()
    }
}

} // verus!
