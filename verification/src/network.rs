use petgraph::algo::floyd_warshall;
use petgraph::graph::{Graph, NodeIndex};
use petgraph::Undirected;
use vstd::prelude::*;
use crate::model::edge::Edge;
use crate::model::station::Station;

verus! {

/// Why no distance index could be built.
#[derive(Debug, Clone, Copy, PartialEq, Eq, Structural)]
pub enum NetworkError {
    /// There are more stations or edges than the graph can index.
    TooLarge,
    /// An edge ends at a station that is not in the station list.
    UnknownStation,
    /// Some station cannot be reached from some other station.
    Disconnected,
    /// The computed table is not a table of distances.
    Inconsistent,
}

/// The all-pairs table that `petgraph::algo::floyd_warshall` computes for the
/// undirected graph with the nodes `0..nodes` and the given edges, each with
/// the numbers of its two nodes and its weight, in the order in which they
/// were added: row by source node and column by target node.
pub uninterp spec fn all_pairs_table(nodes: nat, edges: Seq<(u32, u32, u32)>) -> Seq<Seq<u32>>;

/// The rows of a table as sequences.
pub open spec fn grid(table: &Vec<Vec<u32>>) -> Seq<Seq<u32>> {
    Seq::new(table@.len(), |i: int| table@[i]@)
}

/// Whether `t` has `n` rows of `n` entries each.
pub open spec fn square(t: Seq<Seq<u32>>, n: int) -> bool {
    t.len() == n && forall|a: int| 0 <= a < n ==> (#[trigger] t[a]).len() == n
}

/// Whether every entry of the square table `t` is a finite distance.
pub open spec fn connected(t: Seq<Seq<u32>>) -> bool {
    forall|a: int, b: int| 0 <= a < t.len() && 0 <= b < t.len() ==> #[trigger] t[a][b] < u32::MAX
}

/// Whether going from `a` to `c` directly is no longer than going by `b`.
pub open spec fn detour(t: Seq<Seq<u32>>, a: int, b: int, c: int) -> bool {
    t[a][c] <= t[a][b] + t[b][c]
}

/// Whether the entry from `a` to `b` equals the entry from `b` to `a`.
pub open spec fn mirrored(t: Seq<Seq<u32>>, a: int, b: int) -> bool {
    t[a][b] == t[b][a]
}

/// Whether the square table `t` is a table of distances: zero from a node
/// to itself, the same in both directions, and never shorter by a detour.
pub open spec fn metric(t: Seq<Seq<u32>>) -> bool {
    &&& forall|a: int| 0 <= a < t.len() ==> (#[trigger] t[a])[a] == 0
    &&& forall|a: int, b: int| 0 <= a < t.len() && 0 <= b < t.len() ==> #[trigger] mirrored(t, a, b)
    &&& forall|a: int, b: int, c: int|
        0 <= a < t.len() && 0 <= b < t.len() && 0 <= c < t.len() ==> #[trigger] detour(t, a, b, c)
}

/// Whether `top` is the largest entry of the square table `t`, or zero
/// where the table is empty.
pub open spec fn largest(t: Seq<Seq<u32>>, top: u32) -> bool {
    &&& forall|a: int, b: int| 0 <= a < t.len() && 0 <= b < t.len() ==> #[trigger] t[a][b] <= top
    &&& (t.len() == 0 && top == 0) || exists|a: int, b: int|
        0 <= a < t.len() && 0 <= b < t.len() && #[trigger] t[a][b] == top
}

/// Whether `i` is the first place at which `name` stands in `names`.
pub open spec fn first_at(names: Seq<Station>, name: Seq<char>, i: int) -> bool {
    &&& 0 <= i < names.len()
    &&& names[i]@ == name
    &&& forall|j: int| 0 <= j < i ==> (#[trigger] names[j])@ != name
}

/// Whether a station called `name` is among `names`.
pub open spec fn listed(names: Seq<Station>, name: Seq<char>) -> bool {
    exists|i: int| 0 <= i < names.len() && (#[trigger] names[i])@ == name
}

/// The first place at which `name` stands in `names`.
pub open spec fn slot(names: Seq<Station>, name: Seq<char>) -> int {
    choose|i: int| first_at(names, name, i)
}

/// Both ends of `edge` are among `names`.
pub open spec fn anchored(names: Seq<Station>, edge: Edge) -> bool {
    listed(names, edge.stations.0@) && listed(names, edge.stations.1@)
}

/// The edge as the graph gets it: the places of its two ends, and its cost.
pub open spec fn link(names: Seq<Station>, edge: Edge) -> (u32, u32, u32) {
    (slot(names, edge.stations.0@) as u32, slot(names, edge.stations.1@) as u32, edge.distance)
}

/// The edges as the graph gets them, in their order.
pub open spec fn links(names: Seq<Station>, edges: Seq<Edge>) -> Seq<(u32, u32, u32)> {
    Seq::new(edges.len(), |k: int| link(names, edges[k]))
}

/// Whether stations and edges are few enough to be numbered.
pub open spec fn countable(stations: Seq<Station>, edges: Seq<Edge>) -> bool {
    stations.len() < u32::MAX && edges.len() < u32::MAX
}

/// Whether every edge ends at listed stations.
pub open spec fn all_anchored(stations: Seq<Station>, edges: Seq<Edge>) -> bool {
    forall|k: int| 0 <= k < edges.len() ==> anchored(stations, #[trigger] edges[k])
}

/// The table that is computed for `stations` and `edges`.
pub open spec fn computed(stations: Seq<Station>, edges: Seq<Edge>) -> Seq<Seq<u32>> {
    all_pairs_table(stations.len(), links(stations, edges))
}

/// The shortest distance between every two stations of a connected network.
pub struct Network {
    pub stations: Vec<Station>,
    pub table: Vec<Vec<u32>>,
    pub longest: u32,
}

/// Two places that both are the first place of `name` are one place.
pub(crate) proof fn lemma_first_at_unique(names: Seq<Station>, name: Seq<char>, i: int, j: int)
    requires
        first_at(names, name, i),
        first_at(names, name, j),
    ensures
        i == j,
{
    if i < j {
        assert(names[i]@ != name);
    }
    if j < i {
        assert(names[j]@ != name);
    }
}

/// A place that is the first place of `name` is its slot.
pub(crate) proof fn lemma_slot(names: Seq<Station>, name: Seq<char>, i: int)
    requires
        first_at(names, name, i),
    ensures
        slot(names, name) == i,
        listed(names, name),
{
    lemma_first_at_unique(names, name, i, slot(names, name));
}

/// A name that stands somewhere in `names` has a first place there.
pub(crate) proof fn lemma_first_exists(names: Seq<Station>, name: Seq<char>, i: int)
    requires
        0 <= i < names.len(),
        names[i]@ == name,
    ensures
        first_at(names, name, slot(names, name)),
    decreases i,
{
    if exists|k: int| 0 <= k < i && (#[trigger] names[k])@ == name {
        let k = choose|k: int| 0 <= k < i && (#[trigger] names[k])@ == name;
        lemma_first_exists(names, name, k);
    } else {
        assert(first_at(names, name, i));
    }
}

/// The slot of a listed name is its first place.
pub(crate) proof fn lemma_listed_slot(names: Seq<Station>, name: Seq<char>)
    requires
        listed(names, name),
    ensures
        first_at(names, name, slot(names, name)),
{
    let i = choose|i: int| 0 <= i < names.len() && (#[trigger] names[i])@ == name;
    lemma_first_exists(names, name, i);
}

/// The first place of `name` among `stations`, if it is there at all.
pub fn find_station(stations: &Vec<Station>, name: &Station) -> (place: Option<usize>)
    ensures
        match place {
            Some(i) => first_at(stations@, name@, i as int),
            None => !listed(stations@, name@),
        },
{
    let mut i: usize = 0;
    while i < stations.len()
        invariant
            i <= stations.len(),
            forall|j: int| 0 <= j < i ==> (#[trigger] stations@[j])@ != name@,
        decreases stations.len() - i,
    {
        if stations[i].same(name) {
            return Some(i);
        }
        i += 1;
    }
    None
}

/// `petgraph::graph::Graph`, of which nothing but the names below is known.
#[verifier::external_type_specification]
#[verifier::external_body]
#[verifier::reject_recursive_types(N)]
#[verifier::reject_recursive_types(E)]
#[verifier::reject_recursive_types(Ty)]
#[verifier::reject_recursive_types(Ix)]
pub struct ExGraph<N, E, Ty, Ix>(Graph<N, E, Ty, Ix>);

/// `petgraph::Undirected`, the mark of a graph whose edges have no
/// direction.
#[verifier::external_type_specification]
#[verifier::external_body]
pub struct ExUndirected(Undirected);

/// How many nodes the graph has.
pub uninterp spec fn graph_nodes(graph: Graph<(), u32, Undirected, u32>) -> nat;

/// The edges of the graph in the order in which they were added: the
/// numbers of the two nodes, and the weight.
pub uninterp spec fn graph_edges(graph: Graph<(), u32, Undirected, u32>) -> Seq<(u32, u32, u32)>;

/// Makes a graph with `petgraph::graph::Graph::new_undirected`. Taken on
/// trust: the graph has no node and no edge.
#[verifier::external_body]
fn empty_graph() -> (graph: Graph<(), u32, Undirected, u32>)
    ensures
        graph_nodes(graph) == 0,
        graph_edges(graph) == Seq::<(u32, u32, u32)>::empty(),
{
    Graph::new_undirected()
}

/// Adds a node with `petgraph::graph::Graph::add_node`. Taken on trust:
/// the graph has one node more, numbered after the others, and the same
/// edges. The call panics when the numbers run out, which the
/// precondition leaves out.
#[verifier::external_body]
fn add_node(graph: &mut Graph<(), u32, Undirected, u32>)
    requires
        graph_nodes(*old(graph)) + 1 < u32::MAX,
    ensures
        graph_nodes(*final(graph)) == graph_nodes(*old(graph)) + 1,
        graph_edges(*final(graph)) == graph_edges(*old(graph)),
{
    graph.add_node(());
}

/// Adds an edge with `petgraph::graph::Graph::add_edge`. Taken on trust:
/// the graph has the same nodes and one edge more, behind the others. The
/// call panics when an end is no node or the numbers run out, which the
/// precondition leaves out.
#[verifier::external_body]
fn add_edge(graph: &mut Graph<(), u32, Undirected, u32>, from: u32, to: u32, weight: u32)
    requires
        from < graph_nodes(*old(graph)),
        to < graph_nodes(*old(graph)),
        graph_edges(*old(graph)).len() + 1 < u32::MAX,
    ensures
        graph_nodes(*final(graph)) == graph_nodes(*old(graph)),
        graph_edges(*final(graph)) == graph_edges(*old(graph)).push((from, to, weight)),
{
    graph.add_edge(NodeIndex::new(from as usize), NodeIndex::new(to as usize), weight);
}

/// Calls `petgraph::algo::floyd_warshall` with the weights of the edges as
/// their costs, and lays the map it returns out as a table. Taken on
/// trust: the call succeeds, since it fails only on a distance below zero
/// and the weights are unsigned; the table has a row and a column for each
/// node and is the one the algorithm computes for these nodes and edges.
#[verifier::external_body]
fn shortest_paths(graph: &Graph<(), u32, Undirected, u32>) -> (table: Option<Vec<Vec<u32>>>)
    ensures
        table is Some,
        table matches Some(t) ==> square(grid(&t), graph_nodes(*graph) as int) && grid(&t) == all_pairs_table(
            graph_nodes(*graph),
            graph_edges(*graph),
        ),
{
    let map = floyd_warshall(graph, |e| *e.weight()).ok()?;
    Some(graph.node_indices()
        .map(|a| graph.node_indices().map(|b| map[&(a, b)]).collect())
        .collect())
}

/// Whether every row of `table` has as many entries as the table has rows.
pub fn is_square(table: &Vec<Vec<u32>>) -> (yes: bool)
    ensures
        yes == square(grid(table), table@.len() as int),
{
    let n = table.len();
    let mut a: usize = 0;
    while a < n
        invariant
            n == table@.len(),
            a <= n,
            forall|x: int| 0 <= x < a ==> (#[trigger] grid(table)[x]).len() == n,
        decreases n - a,
    {
        if table[a].len() != n {
            assert(grid(table)[a as int].len() != n);
            return false;
        }
        a += 1;
    }
    true
}

/// Whether every entry of the square `table` is below `u32::MAX`.
pub fn is_connected(table: &Vec<Vec<u32>>) -> (yes: bool)
    requires
        square(grid(table), table@.len() as int),
    ensures
        yes == connected(grid(table)),
{
    let n = table.len();
    let mut a: usize = 0;
    while a < n
        invariant
            n == table@.len(),
            square(grid(table), n as int),
            a <= n,
            forall|x: int, y: int| 0 <= x < a && 0 <= y < n ==> #[trigger] grid(table)[x][y] < u32::MAX,
        decreases n - a,
    {
        let mut b: usize = 0;
        while b < n
            invariant
                n == table@.len(),
                square(grid(table), n as int),
                a < n,
                b <= n,
                forall|x: int, y: int| 0 <= x < a && 0 <= y < n ==> #[trigger] grid(table)[x][y] < u32::MAX,
                forall|y: int| 0 <= y < b ==> #[trigger] grid(table)[a as int][y] < u32::MAX,
            decreases n - b,
        {
            assert(grid(table)[a as int].len() == n);
            if table[a][b] == u32::MAX {
                assert(grid(table)[a as int][b as int] == u32::MAX);
                return false;
            }
            b += 1;
        }
        a += 1;
    }
    true
}

/// The largest entry of the square `table`.
pub fn largest_entry(table: &Vec<Vec<u32>>) -> (top: u32)
    requires
        square(grid(table), table@.len() as int),
    ensures
        largest(grid(table), top),
{
    let n = table.len();
    let mut top: u32 = 0;
    let ghost mut at: (int, int) = (0, 0);
    let mut a: usize = 0;
    while a < n
        invariant
            n == table@.len(),
            square(grid(table), n as int),
            a <= n,
            forall|x: int, y: int| 0 <= x < a && 0 <= y < n ==> #[trigger] grid(table)[x][y] <= top,
            top == 0 || (0 <= at.0 < n && 0 <= at.1 < n && grid(table)[at.0][at.1] == top),
        decreases n - a,
    {
        let mut b: usize = 0;
        while b < n
            invariant
                n == table@.len(),
                square(grid(table), n as int),
                a < n,
                b <= n,
                forall|x: int, y: int| 0 <= x < a && 0 <= y < n ==> #[trigger] grid(table)[x][y] <= top,
                forall|y: int| 0 <= y < b ==> #[trigger] grid(table)[a as int][y] <= top,
                top == 0 || (0 <= at.0 < n && 0 <= at.1 < n && grid(table)[at.0][at.1] == top),
            decreases n - b,
        {
            assert(grid(table)[a as int].len() == n);
            if table[a][b] > top {
                top = table[a][b];
                proof {
                    at = (a as int, b as int);
                }
            }
            b += 1;
        }
        a += 1;
    }
    proof {
        if n > 0 && top == 0 {
            assert(grid(table)[0].len() == n);
            assert(grid(table)[0][0] <= top);
            assert(grid(table)[0][0] == top);
        }
    }
    top
}

/// Whether the detour by `b` is never shorter than the entry itself, for
/// every start `a` and every end `c`.
fn no_shortcut_by(table: &Vec<Vec<u32>>, b: usize) -> (yes: bool)
    requires
        square(grid(table), table@.len() as int),
        b < table@.len(),
    ensures
        yes == forall|a: int, c: int|
            0 <= a < table@.len() && 0 <= c < table@.len() ==> #[trigger] detour(grid(table), a, b as int, c),
{
    let n = table.len();
    let mut a: usize = 0;
    while a < n
        invariant
            n == table@.len(),
            square(grid(table), n as int),
            b < n,
            a <= n,
            forall|x: int, z: int| 0 <= x < a && 0 <= z < n ==> #[trigger] detour(grid(table), x, b as int, z),
        decreases n - a,
    {
        let mut c: usize = 0;
        while c < n
            invariant
                n == table@.len(),
                square(grid(table), n as int),
                b < n,
                a < n,
                c <= n,
                forall|x: int, z: int| 0 <= x < a && 0 <= z < n ==> #[trigger] detour(grid(table), x, b as int, z),
                forall|z: int| 0 <= z < c ==> #[trigger] detour(grid(table), a as int, b as int, z),
            decreases n - c,
        {
            assert(grid(table)[a as int].len() == n);
            assert(grid(table)[b as int].len() == n);
            let direct: u64 = table[a][c] as u64;
            let around: u64 = table[a][b] as u64 + table[b][c] as u64;
            if direct > around {
                assert(!detour(grid(table), a as int, b as int, c as int));
                return false;
            }
            assert(detour(grid(table), a as int, b as int, c as int));
            c += 1;
        }
        a += 1;
    }
    true
}

/// Whether the square `table` is a table of distances.
pub fn is_metric(table: &Vec<Vec<u32>>) -> (yes: bool)
    requires
        square(grid(table), table@.len() as int),
    ensures
        yes == metric(grid(table)),
{
    let n = table.len();
    let mut a: usize = 0;
    while a < n
        invariant
            n == table@.len(),
            square(grid(table), n as int),
            a <= n,
            forall|x: int| 0 <= x < a ==> (#[trigger] grid(table)[x])[x] == 0,
            forall|x: int, y: int| 0 <= x < a && 0 <= y < n ==> #[trigger] mirrored(grid(table), x, y),
            forall|x: int, y: int, z: int|
                0 <= x < n && 0 <= y < a && 0 <= z < n ==> #[trigger] detour(grid(table), x, y, z),
        decreases n - a,
    {
        assert(grid(table)[a as int].len() == n);
        if table[a][a] != 0 {
            assert(grid(table)[a as int][a as int] != 0);
            return false;
        }
        let mut b: usize = 0;
        while b < n
            invariant
                n == table@.len(),
                square(grid(table), n as int),
                a < n,
                b <= n,
                forall|y: int| 0 <= y < b ==> #[trigger] mirrored(grid(table), a as int, y),
            decreases n - b,
        {
            assert(grid(table)[a as int].len() == n);
            assert(grid(table)[b as int].len() == n);
            if table[a][b] != table[b][a] {
                assert(!mirrored(grid(table), a as int, b as int));
                return false;
            }
            assert(mirrored(grid(table), a as int, b as int));
            b += 1;
        }
        if !no_shortcut_by(table, a) {
            return false;
        }
        a += 1;
    }
    true
}

impl Network {
    /// Whether the index is usable: one row and one column for each
    /// station, and a table of finite distances.
    pub open spec fn wf(&self) -> bool {
        &&& square(grid(&self.table), self.stations@.len() as int)
        &&& connected(grid(&self.table))
        &&& metric(grid(&self.table))
        &&& largest(grid(&self.table), self.longest)
    }

    /// Whether the network has a station called `name`.
    pub open spec fn has(&self, name: Seq<char>) -> bool {
        listed(self.stations@, name)
    }

    /// The distance between the stations called `from` and `to`.
    pub open spec fn dist(&self, from: Seq<char>, to: Seq<char>) -> int {
        grid(&self.table)[slot(self.stations@, from)][slot(self.stations@, to)] as int
    }

    /// Wraps a table that was computed for `stations`. The table is
    /// accepted exactly when it is square, without an unreachable pair, and
    /// a table of distances.
    pub fn from_table(stations: Vec<Station>, table: Vec<Vec<u32>>) -> (built: Result<
        Network,
        NetworkError,
    >)
        ensures
            match built {
                Ok(network) => network.wf() && network.stations == stations && network.table
                    == table,
                Err(NetworkError::Disconnected) => square(grid(&table), stations@.len() as int)
                    && !connected(grid(&table)),
                Err(NetworkError::Inconsistent) => !square(grid(&table), stations@.len() as int)
                    || (connected(grid(&table)) && !metric(grid(&table))),
                Err(_) => false,
            },
    {
        if table.len() != stations.len() || !is_square(&table) {
            return Err(NetworkError::Inconsistent);
        }
        if !is_connected(&table) {
            return Err(NetworkError::Disconnected);
        }
        if !is_metric(&table) {
            return Err(NetworkError::Inconsistent);
        }
        let longest = largest_entry(&table);
        Ok(Network { stations, table, longest })
    }

    /// Computes the index for `stations` and `edges`. Every edge joins its
    /// two stations in both directions. There is an index exactly when
    /// stations and edges can be counted, every edge ends at listed
    /// stations, and the computed table has no unreachable pair and is a
    /// table of distances; each refusal says which of these fails first.
    pub fn build(stations: Vec<Station>, edges: &Vec<Edge>) -> (built: Result<Network, NetworkError>)
        ensures
            built is Ok <==> countable(stations@, edges@) && all_anchored(stations@, edges@) && connected(
                computed(stations@, edges@),
            ) && metric(computed(stations@, edges@)),
            match built {
                Ok(network) => {
                    &&& network.wf()
                    &&& network.stations == stations
                    &&& grid(&network.table) == computed(stations@, edges@)
                },
                Err(NetworkError::TooLarge) => !countable(stations@, edges@),
                Err(NetworkError::UnknownStation) => countable(stations@, edges@) && !all_anchored(
                    stations@,
                    edges@,
                ),
                Err(NetworkError::Disconnected) => countable(stations@, edges@) && all_anchored(stations@, edges@)
                    && !connected(computed(stations@, edges@)),
                Err(NetworkError::Inconsistent) => countable(stations@, edges@) && all_anchored(stations@, edges@)
                    && connected(computed(stations@, edges@)) && !metric(computed(stations@, edges@)),
            },
    {
        if stations.len() >= u32::MAX as usize || edges.len() >= u32::MAX as usize {
            return Err(NetworkError::TooLarge);
        }
        let nodes: u32 = stations.len() as u32;
        let mut graph = empty_graph();
        let mut n: u32 = 0;
        while n < nodes
            invariant
                n <= nodes,
                nodes < u32::MAX,
                graph_nodes(graph) == n,
                graph_edges(graph) == Seq::<(u32, u32, u32)>::empty(),
            decreases nodes - n,
        {
            add_node(&mut graph);
            n += 1;
        }
        let mut k: usize = 0;
        while k < edges.len()
            invariant
                k <= edges@.len(),
                stations@.len() == nodes,
                nodes < u32::MAX,
                edges@.len() < u32::MAX,
                graph_nodes(graph) == nodes,
                graph_edges(graph).len() == k,
                forall|j: int| 0 <= j < k ==> anchored(stations@, #[trigger] edges@[j]),
                forall|j: int| 0 <= j < k ==> #[trigger] graph_edges(graph)[j] == link(stations@, edges@[j]),
            decreases edges@.len() - k,
        {
            let edge = &edges[k];
            let a = find_station(&stations, &edge.stations.0);
            let b = find_station(&stations, &edge.stations.1);
            match (a, b) {
                (Some(i), Some(j)) => {
                    proof {
                        lemma_slot(stations@, edge.stations.0@, i as int);
                        lemma_slot(stations@, edge.stations.1@, j as int);
                    }
                    add_edge(&mut graph, i as u32, j as u32, edge.distance);
                },
                _ => {
                    assert(!anchored(stations@, edges@[k as int]));
                    return Err(NetworkError::UnknownStation);
                },
            }
            k += 1;
        }
        assert(graph_edges(graph) =~= links(stations@, edges@));
        match shortest_paths(&graph) {
            Some(table) => {
                let checked = Network::from_table(stations, table);
                checked
            },
            None => Err(NetworkError::Inconsistent),
        }
    }

    /// The distance between two stations of the network.
    pub fn distance(&self, from: &Station, to: &Station) -> (distance: u32)
        requires
            self.wf(),
            self.has(from@),
            self.has(to@),
        ensures
            distance == self.dist(from@, to@),
            distance <= self.longest,
            distance < u32::MAX,
    {
        let i = find_station(&self.stations, from).unwrap();
        let j = find_station(&self.stations, to).unwrap();
        proof {
            lemma_slot(self.stations@, from@, i as int);
            lemma_slot(self.stations@, to@, j as int);
            assert(grid(&self.table)[i as int].len() == self.stations@.len());
            assert(grid(&self.table)[i as int][j as int] < u32::MAX);
        }
        self.table[i][j]
    }

    /// The largest distance between two stations of the network.
    pub fn longest(&self) -> (top: u32)
        ensures
            top == self.longest,
    {
        self.longest
    }

    /// Whether `station` is one of the network's stations.
    pub fn contains(&self, station: &Station) -> (yes: bool)
        ensures
            yes == self.has(station@),
    {
        find_station(&self.stations, station).is_some()
    }
}

/// The distance from one station to another is the distance back.
pub proof fn lemma_distance_symmetric(network: Network, a: Seq<char>, b: Seq<char>)
    requires
        network.wf(),
        network.has(a),
        network.has(b),
    ensures
        network.dist(a, b) == network.dist(b, a),
{
    lemma_listed_slot(network.stations@, a);
    lemma_listed_slot(network.stations@, b);
    assert(mirrored(grid(&network.table), slot(network.stations@, a), slot(network.stations@, b)));
}

/// Going by a third station is never shorter than the distance itself.
pub proof fn lemma_distance_triangle(network: Network, a: Seq<char>, b: Seq<char>, c: Seq<char>)
    requires
        network.wf(),
        network.has(a),
        network.has(b),
        network.has(c),
    ensures
        network.dist(a, c) <= network.dist(a, b) + network.dist(b, c),
{
    lemma_listed_slot(network.stations@, a);
    lemma_listed_slot(network.stations@, b);
    lemma_listed_slot(network.stations@, c);
    assert(detour(
        grid(&network.table),
        slot(network.stations@, a),
        slot(network.stations@, b),
        slot(network.stations@, c),
    ));
}

/// No distance is larger than the network's largest distance.
pub proof fn lemma_distance_bounded(network: Network, a: Seq<char>, b: Seq<char>)
    requires
        network.wf(),
        network.has(a),
        network.has(b),
    ensures
        0 <= network.dist(a, b) <= network.longest,
        network.dist(a, b) < u32::MAX,
{
    lemma_listed_slot(network.stations@, a);
    lemma_listed_slot(network.stations@, b);
    let i = slot(network.stations@, a);
    let j = slot(network.stations@, b);
    assert(grid(&network.table)[i].len() == network.stations@.len());
    assert(grid(&network.table)[i][j] <= network.longest);
    assert(grid(&network.table)[i][j] < u32::MAX);
}

/// The distance from a station to itself is zero.
pub proof fn lemma_distance_to_self(network: Network, a: Seq<char>)
    requires
        network.wf(),
        network.has(a),
    ensures
        network.dist(a, a) == 0,
{
    lemma_listed_slot(network.stations@, a);
    let i = slot(network.stations@, a);
    assert(grid(&network.table)[i][i] == 0);
}

} // verus!
