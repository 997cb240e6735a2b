//! Stratification: the predicates are the nodes of a graph, each
//! dependency of a head on a body predicate is an edge, and the strongly
//! connected components of the graph, dependencies first, are the strata.

use vstd::prelude::*;
use crate::text::{
    dedup_names, entry_index, find_name, first_occurrences, index_of, keys, lemma_entry_index,
    lemma_first_occurrences, lemma_index_of, views,
};

verus! {

/// The marker `petgraph::Directed` of graphs with directed edges; nothing
/// is said of it.
#[verifier::external_type_specification]
#[verifier::external_body]
pub struct ExDirected(petgraph::Directed);

/// The graph type `petgraph::graphmap::GraphMap`; what a graph holds goes
/// by the names `graph_nodes` and `graph_edges`.
#[verifier::external_type_specification]
#[verifier::external_body]
#[verifier::reject_recursive_types(N)]
#[verifier::reject_recursive_types(E)]
#[verifier::reject_recursive_types(Ty)]
#[verifier::reject_recursive_types(S)]
pub struct ExGraphMap<N, E, Ty, S: std::hash::BuildHasher>(
    petgraph::graphmap::GraphMap<N, E, Ty, S>,
);

/// The nodes of a graph, in the order in which they were added.
pub uninterp spec fn graph_nodes(
    g: petgraph::graphmap::GraphMap<usize, (), petgraph::Directed, std::hash::RandomState>,
) -> Seq<usize>;

/// The edges of a graph, each from its first to its second node, in the
/// order in which they were added.
pub uninterp spec fn graph_edges(
    g: petgraph::graphmap::GraphMap<usize, (), petgraph::Directed, std::hash::RandomState>,
) -> Seq<(usize, usize)>;

/// The strongly connected components of the graph with the given nodes and
/// edges, in the order in which `petgraph::algo::kosaraju_scc` lists them.
pub uninterp spec fn scc_order(nodes: Seq<usize>, edges: Seq<(usize, usize)>) -> Seq<Seq<usize>>;

/// `items` with `item` at the end, unless it is there already.
pub open spec fn with_item<T>(items: Seq<T>, item: T) -> Seq<T> {
    if items.contains(item) {
        items
    } else {
        items.push(item)
    }
}

/// Whether `components` holds each of `nodes` once, and nothing else, in
/// components of which none is empty.
pub open spec fn is_partition(components: Seq<Seq<usize>>, nodes: Seq<usize>) -> bool {
    &&& forall|i: int, j: int|
        0 <= i < components.len() && 0 <= j < components[i].len() ==> nodes.contains(
            #[trigger] components[i][j],
        )
    &&& forall|k: int|
        0 <= k < nodes.len() ==> exists|i: int, j: int|
            0 <= i < components.len() && 0 <= j < components[i].len() && components[i][j]
                == #[trigger] nodes[k]
    &&& forall|i1: int, j1: int, i2: int, j2: int|
        0 <= i1 < components.len() && 0 <= j1 < components[i1].len() && 0 <= i2
            < components.len() && 0 <= j2 < components[i2].len() && #[trigger] components[i1][j1]
            == #[trigger] components[i2][j2] ==> i1 == i2 && j1 == j2
    &&& forall|i: int| 0 <= i < components.len() ==> (#[trigger] components[i]).len() > 0
}

/// Whether no edge leads from a component to a later one: what a node
/// depends on stands in its own component or in an earlier one.
pub open spec fn dependencies_first(components: Seq<Seq<usize>>, edges: Seq<(usize, usize)>) -> bool {
    forall|e: int, i1: int, j1: int, i2: int, j2: int|
        0 <= e < edges.len() && 0 <= i1 < components.len() && 0 <= j1 < components[i1].len() && 0
            <= i2 < components.len() && 0 <= j2 < components[i2].len() && #[trigger] components[i1][j1]
            == (#[trigger] edges[e]).0 && #[trigger] components[i2][j2] == edges[e].1 ==> i2 <= i1
}

/// Calls `petgraph::graphmap::GraphMap::new`: a graph without nodes and
/// edges.
#[verifier::external_body]
fn graph_new() -> (g: petgraph::graphmap::GraphMap<
    usize,
    (),
    petgraph::Directed,
    std::hash::RandomState,
>)
    ensures
        graph_nodes(g) == Seq::<usize>::empty(),
        graph_edges(g) == Seq::<(usize, usize)>::empty(),
{
    petgraph::graphmap::GraphMap::new()
}

/// Calls `petgraph::graphmap::GraphMap::add_node`: the node is added after
/// the others unless the graph holds it already; the edges stay.
#[verifier::external_body]
fn graph_add_node(
    g: &mut petgraph::graphmap::GraphMap<usize, (), petgraph::Directed, std::hash::RandomState>,
    n: usize,
)
    ensures
        graph_nodes(*final(g)) == with_item(graph_nodes(*old(g)), n),
        graph_edges(*final(g)) == graph_edges(*old(g)),
{
    g.add_node(n);
}

/// Calls `petgraph::graphmap::GraphMap::add_edge`: a graph that holds the
/// edge already stays as it is; otherwise the edge is added after the
/// others, and before it those of its two nodes that the graph lacks, the
/// first node first.
#[verifier::external_body]
fn graph_add_edge(
    g: &mut petgraph::graphmap::GraphMap<usize, (), petgraph::Directed, std::hash::RandomState>,
    a: usize,
    b: usize,
)
    ensures
        graph_edges(*final(g)) == with_item(graph_edges(*old(g)), (a, b)),
        graph_nodes(*final(g)) == if graph_edges(*old(g)).contains((a, b)) {
            graph_nodes(*old(g))
        } else {
            with_item(with_item(graph_nodes(*old(g)), a), b)
        },
{
    g.add_edge(a, b, ());
}

/// Whether an edge leads from the node at position `k` of `path` to the
/// next.
pub open spec fn is_step(edges: Seq<(usize, usize)>, path: Seq<usize>, k: int) -> bool {
    edges.contains((path[k], path[k + 1]))
}

/// Whether `path` leads along edges from its first node to its last.
pub open spec fn is_walk(edges: Seq<(usize, usize)>, path: Seq<usize>) -> bool {
    &&& path.len() >= 1
    &&& forall|k: int| 0 <= k < path.len() - 1 ==> #[trigger] is_step(edges, path, k)
}

/// Whether edges lead from the node `a` to the node `b`; every node
/// reaches itself.
pub open spec fn reaches(edges: Seq<(usize, usize)>, a: usize, b: usize) -> bool {
    exists|path: Seq<usize>| #[trigger] is_walk(edges, path) && path[0] == a && path.last() == b
}

/// Whether two nodes stand in one component exactly if each reaches the
/// other.
pub open spec fn strongly_connected(components: Seq<Seq<usize>>, edges: Seq<(usize, usize)>) -> bool {
    forall|i1: int, j1: int, i2: int, j2: int|
        0 <= i1 < components.len() && 0 <= j1 < components[i1].len() && 0 <= i2
            < components.len() && 0 <= j2 < components[i2].len() ==> ((i1 == i2) <==> (reaches(
            edges,
            #[trigger] components[i1][j1],
            #[trigger] components[i2][j2],
        ) && reaches(edges, components[i2][j2], components[i1][j1])))
}

/// Calls `petgraph::algo::kosaraju_scc`: the strongly connected components
/// of the graph. Its documentation promises that each element of the
/// result is a strongly connected component, so that each node stands in
/// one component, and two nodes in the same exactly if each reaches the
/// other; and that the components come in reverse topological order, so
/// that no edge leads to a later component. Which of several such orders
/// comes out is fixed by the order in which nodes and edges were added,
/// and goes by the name `scc_order`.
#[verifier::external_body]
fn graph_sccs(
    g: &petgraph::graphmap::GraphMap<usize, (), petgraph::Directed, std::hash::RandomState>,
) -> (components: Vec<Vec<usize>>)
    ensures
        component_views(components@) == scc_order(graph_nodes(*g), graph_edges(*g)),
        is_partition(component_views(components@), graph_nodes(*g)),
        strongly_connected(component_views(components@), graph_edges(*g)),
        dependencies_first(component_views(components@), graph_edges(*g)),
{
    petgraph::algo::kosaraju_scc(g)
}

/// The components as sequences of node numbers.
pub open spec fn component_views(components: Seq<Vec<usize>>) -> Seq<Seq<usize>> {
    Seq::new(components.len(), |i: int| components[i]@)
}


/// The strata of a program: the predicates of each stratum, lowest
/// stratum first, and the level of each predicate.
#[derive(Debug, PartialEq, Eq)]
pub struct Stratum {
    pub strata: Vec<Vec<String>>,
    pub levels: Vec<(String, usize)>,
}

/// The value of a `Stratum`, as contracts speak of it.
pub struct StratumView {
    pub strata: Seq<Seq<Seq<char>>>,
    pub levels: Seq<(Seq<char>, int)>,
}

/// The strata as sequences of names.
pub open spec fn strata_views(strata: Seq<Vec<String>>) -> Seq<Seq<Seq<char>>> {
    Seq::new(strata.len(), |i: int| views(strata[i]@))
}

/// The levels as pairs of a name and a number.
pub open spec fn level_views(levels: Seq<(String, usize)>) -> Seq<(Seq<char>, int)> {
    Seq::new(levels.len(), |i: int| (levels[i].0@, levels[i].1 as int))
}

impl View for Stratum {
    type V = StratumView;

    open spec fn view(&self) -> StratumView {
        StratumView { strata: strata_views(self.strata@), levels: level_views(self.levels@) }
    }
}

impl StratumView {
    /// The level of the predicate `name`, if it has one.
    pub open spec fn level(self, name: Seq<char>) -> Option<int> {
        let k = entry_index(self.levels, name);
        if k < self.levels.len() {
            Some(self.levels[k].1)
        } else {
            None
        }
    }
}

/// The names of the nodes of `component`.
pub open spec fn component_names(names: Seq<Seq<char>>, component: Seq<usize>) -> Seq<Seq<char>> {
    Seq::new(component.len(), |j: int| names[component[j] as int])
}

/// The names of the nodes of `component`, each with `level`.
pub open spec fn component_levels(names: Seq<Seq<char>>, component: Seq<usize>, level: int) -> Seq<
    (Seq<char>, int),
> {
    Seq::new(component.len(), |j: int| (names[component[j] as int], level))
}

/// The levels of the nodes of the first `n` components: the level of a
/// node is the position of its component.
pub open spec fn levels_of(names: Seq<Seq<char>>, components: Seq<Seq<usize>>, n: int) -> Seq<
    (Seq<char>, int),
>
    decreases n,
{
    if n <= 0 {
        Seq::empty()
    } else {
        levels_of(names, components, n - 1) + component_levels(names, components[n - 1], n - 1)
    }
}

/// The strata that `components` stand for, where node `i` is the
/// predicate `names[i]`.
pub open spec fn stratum_from(names: Seq<Seq<char>>, components: Seq<Seq<usize>>) -> StratumView {
    StratumView {
        strata: Seq::new(components.len(), |i: int| component_names(names, components[i])),
        levels: levels_of(names, components, components.len() as int),
    }
}

/// The two ends of each of the first `n` dependencies, in order.
pub open spec fn ends(dependencies: Seq<(Seq<char>, Seq<char>)>, n: int) -> Seq<Seq<char>>
    decreases n,
{
    if n <= 0 {
        Seq::empty()
    } else {
        ends(dependencies, n - 1).push(dependencies[n - 1].0).push(dependencies[n - 1].1)
    }
}

/// The predicates that are nodes of the graph: the relations, then the
/// ends of the dependencies, each once.
pub open spec fn node_names(
    relations: Seq<Seq<char>>,
    dependencies: Seq<(Seq<char>, Seq<char>)>,
) -> Seq<Seq<char>> {
    first_occurrences(relations + ends(dependencies, dependencies.len() as int))
}

/// The dependencies as pairs of node numbers.
pub open spec fn edge_numbers(names: Seq<Seq<char>>, dependencies: Seq<(Seq<char>, Seq<char>)>) -> Seq<
    (usize, usize),
> {
    Seq::new(
        dependencies.len(),
        |i: int|
            (
                index_of(names, dependencies[i].0) as usize,
                index_of(names, dependencies[i].1) as usize,
            ),
    )
}

/// The numbers below `n`, ascending.
pub open spec fn numbers(n: nat) -> Seq<usize> {
    Seq::new(n, |i: int| i as usize)
}

/// The dependencies as pairs of names.
pub open spec fn dependency_views(dependencies: Seq<(String, String)>) -> Seq<
    (Seq<char>, Seq<char>),
> {
    Seq::new(dependencies.len(), |i: int| (dependencies[i].0@, dependencies[i].1@))
}

/// The strata of the graph whose nodes are `relations` and the ends of
/// `dependencies`, and whose edges are `dependencies`.
pub open spec fn stratum_of(
    relations: Seq<Seq<char>>,
    dependencies: Seq<(Seq<char>, Seq<char>)>,
) -> StratumView {
    let names = node_names(relations, dependencies);
    stratum_from(
        names,
        scc_order(numbers(names.len()), first_occurrences(edge_numbers(names, dependencies))),
    )
}

/// Whether every node of `components` is a number below `n`.
pub open spec fn components_within(components: Seq<Seq<usize>>, n: int) -> bool {
    forall|i: int, j: int|
        0 <= i < components.len() && 0 <= j < components[i].len() ==> (
        #[trigger] components[i][j]) < n
}

/// Whether `entry` gives a node of the component at its level its name.
pub open spec fn entry_of_node(
    names: Seq<Seq<char>>,
    components: Seq<Seq<usize>>,
    entry: (Seq<char>, int),
) -> bool {
    &&& 0 <= entry.1 < components.len()
    &&& exists|j: int|
        0 <= j < components[entry.1].len() && entry.0 == names[#[trigger] components[entry.1][j] as int]
}

/// The level of a node is the position of its component.
pub proof fn lemma_level_of_node(
    names: Seq<Seq<char>>,
    components: Seq<Seq<usize>>,
    i: int,
    j: int,
)
    requires
        names.no_duplicates(),
        is_partition(components, numbers(names.len())),
        0 <= i < components.len(),
        0 <= j < components[i].len(),
    ensures
        components[i][j] < names.len(),
        stratum_from(names, components).level(names[components[i][j] as int]) == Some(i),
{
    let levels = levels_of(names, components, components.len() as int);
    let name = names[components[i][j] as int];
    lemma_partition_within(components, names.len());
    lemma_levels_entries(names, components, components.len() as int);
    lemma_entry_index(levels, name);
    let k = entry_index(levels, name);
    assert(levels.contains((names[components[i][j] as int], i)));
    let own = choose|own: int| 0 <= own < levels.len() && levels[own] == (name, i);
    assert(levels[own].0 == name);
    assert(k < levels.len());
    assert(entry_of_node(names, components, levels[k]));
    let i2 = levels[k].1;
    let j2 = choose|j2: int|
        0 <= j2 < components[i2].len() && levels[k].0 == names[#[trigger] components[i2][j2] as int];
    assert(components[i2][j2] < names.len());
    assert(components[i][j] < names.len());
    assert(components[i2][j2] as int == components[i][j] as int);
}

/// The nodes of a partition of the numbers below `n` are below `n`.
pub proof fn lemma_partition_within(components: Seq<Seq<usize>>, n: nat)
    requires
        is_partition(components, numbers(n)),
    ensures
        components_within(components, n as int),
{
    assert forall|i: int, j: int|
        0 <= i < components.len() && 0 <= j < components[i].len() implies (
    #[trigger] components[i][j]) < n by {
        assert(numbers(n).contains(components[i][j]));
        let k = choose|k: int| 0 <= k < numbers(n).len() && numbers(n)[k] == components[i][j];
    }
}

/// Each entry of the levels stands for a node of a component, and each
/// node of a component has its entry.
pub proof fn lemma_levels_entries(names: Seq<Seq<char>>, components: Seq<Seq<usize>>, n: int)
    requires
        0 <= n <= components.len(),
    ensures
        forall|k: int|
            0 <= k < levels_of(names, components, n).len() ==> entry_of_node(
                names,
                components,
                #[trigger] levels_of(names, components, n)[k],
            ) && levels_of(names, components, n)[k].1 < n,
        forall|i: int, j: int|
            0 <= i < n && 0 <= j < components[i].len() ==> levels_of(names, components, n).contains(
                (names[#[trigger] components[i][j] as int], i),
            ),
    decreases n,
{
    if n > 0 {
        lemma_levels_entries(names, components, n - 1);
        let before = levels_of(names, components, n - 1);
        let last = component_levels(names, components[n - 1], n - 1);
        let now = levels_of(names, components, n);
        assert forall|k: int| 0 <= k < now.len() implies entry_of_node(
            names,
            components,
            #[trigger] now[k],
        ) && now[k].1 < n by {
            if k < before.len() {
                assert(now[k] == before[k]);
            } else {
                let j = k - before.len();
                assert(now[k] == last[j]);
                assert(now[k].0 == names[components[n - 1][j] as int]);
            }
        }
        assert forall|i: int, j: int| 0 <= i < n && 0 <= j < components[i].len() implies now.contains(
            (names[#[trigger] components[i][j] as int], i),
        ) by {
            if i < n - 1 {
                let entry = (names[components[i][j] as int], i);
                assert(before.contains(entry));
                let k = choose|k: int| 0 <= k < before.len() && before[k] == entry;
                assert(now[k] == entry);
            } else {
                assert(now[before.len() + j] == last[j]);
            }
        }
    }
}


/// The ends of each of the first `n` dependencies are among `ends`.
pub proof fn lemma_ends(dependencies: Seq<(Seq<char>, Seq<char>)>, n: int)
    requires
        0 <= n <= dependencies.len(),
    ensures
        ends(dependencies, n).len() == 2 * n,
        forall|d: int|
            0 <= d < n ==> ends(dependencies, n).contains((#[trigger] dependencies[d]).0) && ends(
                dependencies,
                n,
            ).contains(dependencies[d].1),
    decreases n,
{
    if n > 0 {
        lemma_ends(dependencies, n - 1);
        let before = ends(dependencies, n - 1);
        let now = ends(dependencies, n);
        assert forall|d: int| 0 <= d < n implies now.contains((#[trigger] dependencies[d]).0)
            && now.contains(dependencies[d].1) by {
            if d < n - 1 {
                let k0 = choose|k: int| 0 <= k < before.len() && before[k] == dependencies[d].0;
                let k1 = choose|k: int| 0 <= k < before.len() && before[k] == dependencies[d].1;
                assert(now[k0] == dependencies[d].0);
                assert(now[k1] == dependencies[d].1);
            } else {
                assert(now[now.len() - 2] == dependencies[d].0);
                assert(now[now.len() - 1] == dependencies[d].1);
            }
        }
    }
}

/// Whether every predicate of `names` has a level.
pub open spec fn covers(stratum: StratumView, names: Seq<Seq<char>>) -> bool {
    forall|k: int| 0 <= k < names.len() ==> stratum.level(#[trigger] names[k]) is Some
}

/// Whether no dependency leads upward: the level of what a predicate
/// depends on is at most its own.
pub open spec fn respects(stratum: StratumView, dependencies: Seq<(Seq<char>, Seq<char>)>) -> bool {
    forall|d: int|
        0 <= d < dependencies.len() ==> {
            &&& stratum.level((#[trigger] dependencies[d]).0) is Some
            &&& stratum.level(dependencies[d].1) is Some
            &&& stratum.level(dependencies[d].1)->0 <= stratum.level(dependencies[d].0)->0
        }
}

/// Components that part the nodes and put dependencies first give every
/// predicate a level, and no dependency a higher level than its head.
pub proof fn lemma_stratum_levels(
    relations: Seq<Seq<char>>,
    dependencies: Seq<(Seq<char>, Seq<char>)>,
    components: Seq<Seq<usize>>,
)
    requires
        node_names(relations, dependencies).len() <= usize::MAX,
        is_partition(components, numbers(node_names(relations, dependencies).len())),
        dependencies_first(
            components,
            first_occurrences(edge_numbers(node_names(relations, dependencies), dependencies)),
        ),
    ensures
        covers(
            stratum_from(node_names(relations, dependencies), components),
            node_names(relations, dependencies),
        ),
        respects(stratum_from(node_names(relations, dependencies), components), dependencies),
{
    let names = node_names(relations, dependencies);
    let nodes = numbers(names.len());
    let stratum = stratum_from(names, components);
    let all = relations + ends(dependencies, dependencies.len() as int);
    lemma_first_occurrences(all);
    assert forall|k: int| 0 <= k < names.len() implies stratum.level(#[trigger] names[k]) is Some by {
        assert(nodes[k] == k);
        let (i, j) = choose|i: int, j: int|
            0 <= i < components.len() && 0 <= j < components[i].len() && components[i][j]
                == nodes[k];
        lemma_level_of_node(names, components, i, j);
    }
    let numbered = edge_numbers(names, dependencies);
    let edges = first_occurrences(numbered);
    lemma_first_occurrences(numbered);
    lemma_ends(dependencies, dependencies.len() as int);
    assert forall|d: int| 0 <= d < dependencies.len() implies {
        &&& stratum.level((#[trigger] dependencies[d]).0) is Some
        &&& stratum.level(dependencies[d].1) is Some
        &&& stratum.level(dependencies[d].1)->0 <= stratum.level(dependencies[d].0)->0
    } by {
        let head = dependencies[d].0;
        let body = dependencies[d].1;
        let ends_all = ends(dependencies, dependencies.len() as int);
        let kh = choose|k: int| 0 <= k < ends_all.len() && ends_all[k] == head;
        let kb = choose|k: int| 0 <= k < ends_all.len() && ends_all[k] == body;
        assert(all[relations.len() + kh] == head);
        assert(all[relations.len() + kb] == body);
        assert(all.contains(head));
        assert(all.contains(body));
        assert(names.contains(head));
        assert(names.contains(body));
        lemma_index_of(names, head);
        lemma_index_of(names, body);
        let a = index_of(names, head);
        let b = index_of(names, body);
        assert(numbered[d] == (a as usize, b as usize));
        assert(numbered.contains((a as usize, b as usize)));
        assert(edges.contains((a as usize, b as usize)));
        let e = choose|e: int| 0 <= e < edges.len() && edges[e] == (a as usize, b as usize);
        assert(nodes[a] == a);
        assert(nodes[b] == b);
        let (i1, j1) = choose|i: int, j: int|
            0 <= i < components.len() && 0 <= j < components[i].len() && components[i][j]
                == nodes[a];
        let (i2, j2) = choose|i: int, j: int|
            0 <= i < components.len() && 0 <= j < components[i].len() && components[i][j]
                == nodes[b];
        lemma_level_of_node(names, components, i1, j1);
        lemma_level_of_node(names, components, i2, j2);
        assert(components[i1][j1] == edges[e].0);
        assert(components[i2][j2] == edges[e].1);
        assert(i2 <= i1);
    }
}

/// Whether the predicate at position `k` of `chain` depends on the next.
pub open spec fn is_hop(
    dependencies: Seq<(Seq<char>, Seq<char>)>,
    chain: Seq<Seq<char>>,
    k: int,
) -> bool {
    dependencies.contains((chain[k], chain[k + 1]))
}

/// Whether the predicate `name` stands in a stratum.
pub open spec fn in_strata(stratum: StratumView, name: Seq<char>) -> bool {
    exists|i: int, j: int|
        0 <= i < stratum.strata.len() && 0 <= j < stratum.strata[i].len()
            && #[trigger] stratum.strata[i][j] == name
}

/// Whether no predicate stands twice in the strata.
pub open spec fn strata_distinct(strata: Seq<Seq<Seq<char>>>) -> bool {
    forall|i1: int, j1: int, i2: int, j2: int|
        0 <= i1 < strata.len() && 0 <= j1 < strata[i1].len() && 0 <= i2 < strata.len() && 0 <= j2
            < strata[i2].len() && #[trigger] strata[i1][j1] == #[trigger] strata[i2][j2] ==> i1
            == i2 && j1 == j2
}

/// Whether the strata part the predicates `names`: no stratum is empty, no
/// predicate stands twice in the strata, and the predicates of the strata
/// are those of `names`.
pub open spec fn strata_part(stratum: StratumView, names: Seq<Seq<char>>) -> bool {
    &&& forall|i: int| 0 <= i < stratum.strata.len() ==> (#[trigger] stratum.strata[i]).len() > 0
    &&& strata_distinct(stratum.strata)
    &&& forall|i: int, j: int|
        0 <= i < stratum.strata.len() && 0 <= j < stratum.strata[i].len() ==> names.contains(
            #[trigger] stratum.strata[i][j],
        )
    &&& forall|k: int| 0 <= k < names.len() ==> in_strata(stratum, #[trigger] names[k])
}

/// The strata of components that part the nodes part the predicates.
pub proof fn lemma_strata_part(names: Seq<Seq<char>>, components: Seq<Seq<usize>>)
    requires
        names.no_duplicates(),
        names.len() <= usize::MAX,
        is_partition(components, numbers(names.len())),
    ensures
        strata_part(stratum_from(names, components), names),
{
    let stratum = stratum_from(names, components);
    let nodes = numbers(names.len());
    lemma_partition_within(components, names.len());
    assert forall|i: int| 0 <= i < stratum.strata.len() implies (#[trigger] stratum.strata[i]).len()
        > 0 by {
        assert(components[i].len() > 0);
    }
    assert forall|i1: int, j1: int, i2: int, j2: int|
        0 <= i1 < stratum.strata.len() && 0 <= j1 < stratum.strata[i1].len() && 0 <= i2
            < stratum.strata.len() && 0 <= j2 < stratum.strata[i2].len()
            && #[trigger] stratum.strata[i1][j1] == #[trigger] stratum.strata[i2][j2] implies i1
        == i2 && j1 == j2 by {
        assert(components[i1][j1] < names.len());
        assert(components[i2][j2] < names.len());
        assert(names[components[i1][j1] as int] == names[components[i2][j2] as int]);
        assert(components[i1][j1] == components[i2][j2]);
    }
    assert forall|i: int, j: int|
        0 <= i < stratum.strata.len() && 0 <= j < stratum.strata[i].len() implies names.contains(
        #[trigger] stratum.strata[i][j],
    ) by {
        assert(components[i][j] < names.len());
        assert(names[components[i][j] as int] == stratum.strata[i][j]);
    }
    assert forall|k: int| 0 <= k < names.len() implies in_strata(
        stratum,
        #[trigger] names[k],
    ) by {
        assert(nodes[k] == k);
        let (i, j) = choose|i: int, j: int|
            0 <= i < components.len() && 0 <= j < components[i].len() && components[i][j]
                == nodes[k];
        assert(stratum.strata[i][j] == names[k]);
    }
}

/// No predicate has two levels: no name stands twice among the levels
/// of the components of a partition.
pub proof fn lemma_levels_unique(names: Seq<Seq<char>>, components: Seq<Seq<usize>>, n: int)
    requires
        names.no_duplicates(),
        is_partition(components, numbers(names.len())),
        0 <= n <= components.len(),
    ensures
        keys(levels_of(names, components, n)).no_duplicates(),
    decreases n,
{
    if n > 0 {
        lemma_levels_unique(names, components, n - 1);
        lemma_levels_entries(names, components, n - 1);
        lemma_partition_within(components, names.len());
        let before = levels_of(names, components, n - 1);
        let last = component_levels(names, components[n - 1], n - 1);
        let now = levels_of(names, components, n);
        assert forall|a: int, b: int| 0 <= a < b < now.len() implies keys(now)[a] != keys(now)[b] by {
            if b < before.len() {
                assert(keys(now)[a] == keys(before)[a]);
                assert(keys(now)[b] == keys(before)[b]);
            } else {
                let jb = b - before.len();
                assert(now[b] == last[jb]);
                assert(components[n - 1][jb] < names.len());
                if a < before.len() {
                    assert(now[a] == before[a]);
                    assert(entry_of_node(names, components, before[a]));
                    let level = before[a].1;
                    let ja = choose|j: int|
                        0 <= j < components[level].len() && before[a].0
                            == names[#[trigger] components[level][j] as int];
                    assert(components[level][ja] < names.len());
                    assert(components[level][ja] != components[n - 1][jb]);
                } else {
                    let ja = a - before.len();
                    assert(now[a] == last[ja]);
                    assert(components[n - 1][ja] < names.len());
                    assert(components[n - 1][ja] != components[n - 1][jb]);
                }
            }
        }
    }
}

/// Whether `chain` leads along dependencies from its first predicate to
/// its last.
pub open spec fn is_chain(dependencies: Seq<(Seq<char>, Seq<char>)>, chain: Seq<Seq<char>>) -> bool {
    &&& chain.len() >= 1
    &&& forall|k: int| 0 <= k < chain.len() - 1 ==> #[trigger] is_hop(dependencies, chain, k)
}

/// Whether the predicate `a` depends on the predicate `b`, directly or
/// through others; every predicate depends on itself.
pub open spec fn depends_on(
    dependencies: Seq<(Seq<char>, Seq<char>)>,
    a: Seq<char>,
    b: Seq<char>,
) -> bool {
    exists|chain: Seq<Seq<char>>| #[trigger]
        is_chain(dependencies, chain) && chain[0] == a && chain.last() == b
}

/// Whether two predicates have one level exactly if each depends on the
/// other.
pub open spec fn strata_are_components(
    stratum: StratumView,
    names: Seq<Seq<char>>,
    dependencies: Seq<(Seq<char>, Seq<char>)>,
) -> bool {
    forall|a: int, b: int|
        0 <= a < names.len() && 0 <= b < names.len() ==> ((stratum.level(#[trigger] names[a])
            == stratum.level(#[trigger] names[b])) <==> (depends_on(
            dependencies,
            names[a],
            names[b],
        ) && depends_on(dependencies, names[b], names[a])))
}

/// Whether the level of each predicate is the position of its stratum.
pub open spec fn levels_match(stratum: StratumView) -> bool {
    forall|i: int, j: int|
        0 <= i < stratum.strata.len() && 0 <= j < stratum.strata[i].len() ==> stratum.level(
            #[trigger] stratum.strata[i][j],
        ) == Some(i)
}

/// The edge of a dependency: the numbers of its two predicates, which are
/// predicates of the graph.
pub proof fn lemma_dependency_edge(
    relations: Seq<Seq<char>>,
    dependencies: Seq<(Seq<char>, Seq<char>)>,
    d: int,
)
    requires
        node_names(relations, dependencies).len() <= usize::MAX,
        0 <= d < dependencies.len(),
    ensures
        ({
            let names = node_names(relations, dependencies);
            let a = index_of(names, dependencies[d].0);
            let b = index_of(names, dependencies[d].1);
            &&& 0 <= a < names.len()
            &&& 0 <= b < names.len()
            &&& names[a] == dependencies[d].0
            &&& names[b] == dependencies[d].1
            &&& edge_numbers(names, dependencies)[d] == (a as usize, b as usize)
            &&& first_occurrences(edge_numbers(names, dependencies)).contains(
                (a as usize, b as usize),
            )
        }),
{
    let names = node_names(relations, dependencies);
    let numbered = edge_numbers(names, dependencies);
    let all = relations + ends(dependencies, dependencies.len() as int);
    lemma_ends(dependencies, dependencies.len() as int);
    lemma_first_occurrences(all);
    lemma_first_occurrences(numbered);
    let head = dependencies[d].0;
    let body = dependencies[d].1;
    let ends_all = ends(dependencies, dependencies.len() as int);
    let kh = choose|k: int| 0 <= k < ends_all.len() && ends_all[k] == head;
    let kb = choose|k: int| 0 <= k < ends_all.len() && ends_all[k] == body;
    assert(all[relations.len() + kh] == head);
    assert(all[relations.len() + kb] == body);
    assert(all.contains(head));
    assert(all.contains(body));
    lemma_index_of(names, head);
    lemma_index_of(names, body);
    assert(numbered.contains(numbered[d]));
}

/// The dependency of an edge: its two nodes are the numbers of the two
/// predicates of a dependency.
pub proof fn lemma_edge_dependency(
    relations: Seq<Seq<char>>,
    dependencies: Seq<(Seq<char>, Seq<char>)>,
    a: usize,
    b: usize,
)
    requires
        node_names(relations, dependencies).len() <= usize::MAX,
        first_occurrences(
            edge_numbers(node_names(relations, dependencies), dependencies),
        ).contains((a, b)),
    ensures
        a < node_names(relations, dependencies).len(),
        b < node_names(relations, dependencies).len(),
        dependencies.contains(
            (
                node_names(relations, dependencies)[a as int],
                node_names(relations, dependencies)[b as int],
            ),
        ),
{
    let names = node_names(relations, dependencies);
    let numbered = edge_numbers(names, dependencies);
    lemma_first_occurrences(numbered);
    assert(numbered.contains((a, b)));
    let d = choose|d: int| 0 <= d < numbered.len() && numbered[d] == (a, b);
    lemma_dependency_edge(relations, dependencies, d);
    assert(dependencies[d] == (names[a as int], names[b as int]));
}

/// Whether each edge leads between the numbers of the two predicates of
/// a dependency.
pub open spec fn edges_are_dependencies(
    names: Seq<Seq<char>>,
    edges: Seq<(usize, usize)>,
    dependencies: Seq<(Seq<char>, Seq<char>)>,
) -> bool {
    forall|a: usize, b: usize| #[trigger]
        edges.contains((a, b)) ==> a < names.len() && b < names.len() && dependencies.contains(
            (names[a as int], names[b as int]),
        )
}

/// Whether each dependency has its edge.
pub open spec fn dependencies_are_edges(
    names: Seq<Seq<char>>,
    edges: Seq<(usize, usize)>,
    dependencies: Seq<(Seq<char>, Seq<char>)>,
) -> bool {
    forall|x: Seq<char>, y: Seq<char>| #[trigger]
        dependencies.contains((x, y)) ==> edges.contains(
            (index_of(names, x) as usize, index_of(names, y) as usize),
        )
}

/// A walk from a node of the graph leads through nodes of the graph, and
/// their predicates form a chain of dependencies.
pub proof fn lemma_walk_chain(
    names: Seq<Seq<char>>,
    edges: Seq<(usize, usize)>,
    dependencies: Seq<(Seq<char>, Seq<char>)>,
    path: Seq<usize>,
    n: int,
)
    requires
        edges_are_dependencies(names, edges, dependencies),
        is_walk(edges, path),
        path[0] < names.len(),
        1 <= n <= path.len(),
    ensures
        forall|k: int| 0 <= k < n ==> (#[trigger] path[k]) < names.len(),
        is_chain(dependencies, Seq::new(n as nat, |k: int| names[path[k] as int])),
    decreases n,
{
    let chain = Seq::new(n as nat, |k: int| names[path[k] as int]);
    if n > 1 {
        lemma_walk_chain(names, edges, dependencies, path, n - 1);
        let before = Seq::new((n - 1) as nat, |k: int| names[path[k] as int]);
        assert(is_step(edges, path, n - 2));
        assert(edges.contains((path[n - 2], path[n - 1])));
        assert forall|k: int| 0 <= k < chain.len() - 1 implies #[trigger] is_hop(
            dependencies,
            chain,
            k,
        ) by {
            if k < n - 2 {
                assert(is_hop(dependencies, before, k));
                assert(before[k] == chain[k] && before[k + 1] == chain[k + 1]);
            }
        }
    }
}

/// The numbers of the predicates of a chain of dependencies form a walk.
pub proof fn lemma_chain_walk(
    names: Seq<Seq<char>>,
    edges: Seq<(usize, usize)>,
    dependencies: Seq<(Seq<char>, Seq<char>)>,
    chain: Seq<Seq<char>>,
    n: int,
)
    requires
        dependencies_are_edges(names, edges, dependencies),
        is_chain(dependencies, chain),
        1 <= n <= chain.len(),
    ensures
        is_walk(edges, Seq::new(n as nat, |k: int| index_of(names, chain[k]) as usize)),
    decreases n,
{
    let path = Seq::new(n as nat, |k: int| index_of(names, chain[k]) as usize);
    if n > 1 {
        lemma_chain_walk(names, edges, dependencies, chain, n - 1);
        let before = Seq::new((n - 1) as nat, |k: int| index_of(names, chain[k]) as usize);
        assert(is_hop(dependencies, chain, n - 2));
        assert(dependencies.contains((chain[n - 2], chain[n - 1])));
        assert forall|k: int| 0 <= k < path.len() - 1 implies #[trigger] is_step(edges, path, k) by {
            if k < n - 2 {
                assert(is_step(edges, before, k));
                assert(before[k] == path[k] && before[k + 1] == path[k + 1]);
            }
        }
    }
}

/// The edges of the graph of a program are its dependencies.
pub proof fn lemma_edges_dependencies(
    relations: Seq<Seq<char>>,
    dependencies: Seq<(Seq<char>, Seq<char>)>,
)
    requires
        node_names(relations, dependencies).len() <= usize::MAX,
    ensures
        edges_are_dependencies(
            node_names(relations, dependencies),
            first_occurrences(edge_numbers(node_names(relations, dependencies), dependencies)),
            dependencies,
        ),
        dependencies_are_edges(
            node_names(relations, dependencies),
            first_occurrences(edge_numbers(node_names(relations, dependencies), dependencies)),
            dependencies,
        ),
{
    let names = node_names(relations, dependencies);
    let edges = first_occurrences(edge_numbers(names, dependencies));
    assert forall|a: usize, b: usize| #[trigger] edges.contains((a, b)) implies a < names.len()
        && b < names.len() && dependencies.contains((names[a as int], names[b as int])) by {
        lemma_edge_dependency(relations, dependencies, a, b);
    }
    assert forall|x: Seq<char>, y: Seq<char>| #[trigger]
        dependencies.contains((x, y)) implies edges.contains(
        (index_of(names, x) as usize, index_of(names, y) as usize),
    ) by {
        let d = choose|d: int| 0 <= d < dependencies.len() && dependencies[d] == (x, y);
        lemma_dependency_edge(relations, dependencies, d);
    }
}

/// A node of the graph reaches another exactly if its predicate depends
/// on the other's.
pub proof fn lemma_reaches_depends(
    relations: Seq<Seq<char>>,
    dependencies: Seq<(Seq<char>, Seq<char>)>,
    a: int,
    b: int,
)
    requires
        node_names(relations, dependencies).len() <= usize::MAX,
        0 <= a < node_names(relations, dependencies).len(),
        0 <= b < node_names(relations, dependencies).len(),
    ensures
        reaches(
            first_occurrences(edge_numbers(node_names(relations, dependencies), dependencies)),
            a as usize,
            b as usize,
        ) <==> depends_on(
            dependencies,
            node_names(relations, dependencies)[a],
            node_names(relations, dependencies)[b],
        ),
{
    let names = node_names(relations, dependencies);
    let edges = first_occurrences(edge_numbers(names, dependencies));
    let all = relations + ends(dependencies, dependencies.len() as int);
    lemma_first_occurrences(all);
    lemma_edges_dependencies(relations, dependencies);
    if reaches(edges, a as usize, b as usize) {
        let path = choose|path: Seq<usize>| #[trigger]
            is_walk(edges, path) && path[0] == a as usize && path.last() == b as usize;
        lemma_walk_chain(names, edges, dependencies, path, path.len() as int);
        let chain = Seq::new(path.len(), |k: int| names[path[k] as int]);
        assert(is_chain(dependencies, chain) && chain[0] == names[a] && chain.last() == names[b]);
    }
    if depends_on(dependencies, names[a], names[b]) {
        let chain = choose|chain: Seq<Seq<char>>| #[trigger]
            is_chain(dependencies, chain) && chain[0] == names[a] && chain.last() == names[b];
        lemma_chain_walk(names, edges, dependencies, chain, chain.len() as int);
        let path = Seq::new(chain.len(), |k: int| index_of(names, chain[k]) as usize);
        lemma_index_of(names, names[a]);
        lemma_index_of(names, names[b]);
        assert(index_of(names, names[a]) == a) by {
            if index_of(names, names[a]) != a {
                assert(names[index_of(names, names[a])] == names[a]);
            }
        }
        assert(index_of(names, names[b]) == b) by {
            if index_of(names, names[b]) != b {
                assert(names[index_of(names, names[b])] == names[b]);
            }
        }
        assert(is_walk(edges, path) && path[0] == a as usize && path.last() == b as usize);
    }
}

/// Components that part the nodes into strongly connected components are
/// strata in which two predicates stand together exactly if each depends
/// on the other, and the level of a predicate is the position of its
/// stratum.
pub proof fn lemma_strata_components(
    relations: Seq<Seq<char>>,
    dependencies: Seq<(Seq<char>, Seq<char>)>,
    components: Seq<Seq<usize>>,
)
    requires
        node_names(relations, dependencies).len() <= usize::MAX,
        is_partition(components, numbers(node_names(relations, dependencies).len())),
        strongly_connected(
            components,
            first_occurrences(edge_numbers(node_names(relations, dependencies), dependencies)),
        ),
    ensures
        strata_are_components(
            stratum_from(node_names(relations, dependencies), components),
            node_names(relations, dependencies),
            dependencies,
        ),
        levels_match(stratum_from(node_names(relations, dependencies), components)),
{
    let names = node_names(relations, dependencies);
    let nodes = numbers(names.len());
    let stratum = stratum_from(names, components);
    let edges = first_occurrences(edge_numbers(names, dependencies));
    let all = relations + ends(dependencies, dependencies.len() as int);
    lemma_first_occurrences(all);
    assert forall|a: int, b: int| 0 <= a < names.len() && 0 <= b < names.len() implies ((
    stratum.level(#[trigger] names[a]) == stratum.level(#[trigger] names[b])) <==> (depends_on(
        dependencies,
        names[a],
        names[b],
    ) && depends_on(dependencies, names[b], names[a]))) by {
        assert(nodes[a] == a && nodes[b] == b);
        let (i1, j1) = choose|i: int, j: int|
            0 <= i < components.len() && 0 <= j < components[i].len() && components[i][j]
                == nodes[a];
        let (i2, j2) = choose|i: int, j: int|
            0 <= i < components.len() && 0 <= j < components[i].len() && components[i][j]
                == nodes[b];
        lemma_level_of_node(names, components, i1, j1);
        lemma_level_of_node(names, components, i2, j2);
        lemma_reaches_depends(relations, dependencies, a, b);
        lemma_reaches_depends(relations, dependencies, b, a);
        assert((i1 == i2) <==> (reaches(edges, components[i1][j1], components[i2][j2]) && reaches(
            edges,
            components[i2][j2],
            components[i1][j1],
        )));
    }
    assert forall|i: int, j: int|
        0 <= i < stratum.strata.len() && 0 <= j < stratum.strata[i].len() implies stratum.level(
        #[trigger] stratum.strata[i][j],
    ) == Some(i) by {
        lemma_level_of_node(names, components, i, j);
    }
}

impl Stratum {
    /// The strata that `components` stand for, where node `i` is the
    /// predicate `names[i]`.
    pub fn from_components(names: &Vec<String>, components: &Vec<Vec<usize>>) -> (stratum: Stratum)
        requires
            components_within(component_views(components@), names@.len() as int),
        ensures
            stratum@ == stratum_from(views(names@), component_views(components@)),
    {
        let mut strata: Vec<Vec<String>> = Vec::new();
        let mut levels: Vec<(String, usize)> = Vec::new();
        let mut i: usize = 0;
        assert(level_views(levels@) =~= Seq::<(Seq<char>, int)>::empty());
        while i < components.len()
            invariant
                i <= components.len(),
                components_within(component_views(components@), names@.len() as int),
                strata@.len() == i,
                forall|k: int|
                    0 <= k < i ==> views((#[trigger] strata@[k])@) == component_names(
                        views(names@),
                        components@[k]@,
                    ),
                level_views(levels@) == levels_of(
                    views(names@),
                    component_views(components@),
                    i as int,
                ),
            decreases components.len() - i,
        {
            let component = &components[i];
            let ghost before = level_views(levels@);
            let mut stratum: Vec<String> = Vec::new();
            let mut j: usize = 0;
            assert(component_views(components@)[i as int] == component@);
            while j < component.len()
                invariant
                    j <= component.len(),
                    i < components.len(),
                    component_views(components@)[i as int] == component@,
                    components_within(component_views(components@), names@.len() as int),
                    stratum@.len() == j,
                    forall|k: int|
                        0 <= k < j ==> (#[trigger] stratum@[k])@ == names@[component@[k] as int]@,
                    level_views(levels@) == before + Seq::new(
                        j as nat,
                        |k: int| (views(names@)[component@[k] as int], i as int),
                    ),
                decreases component.len() - j,
            {
                let ghost sofar = level_views(levels@);
                let node = component[j];
                assert(component_views(components@)[i as int][j as int] < names@.len());
                stratum.push(names[node].clone());
                levels.push((names[node].clone(), i));
                assert(level_views(levels@) =~= sofar.push((names@[node as int]@, i as int)));
                j = j + 1;
                assert(level_views(levels@) =~= before + Seq::new(
                    j as nat,
                    |k: int| (views(names@)[component@[k] as int], i as int),
                ));
            }
            assert(views(stratum@) =~= component_names(views(names@), component@));
            assert(level_views(levels@) =~= before + component_levels(
                views(names@),
                component@,
                i as int,
            ));
            strata.push(stratum);
            i = i + 1;
        }
        let stratum = Stratum { strata, levels };
        assert(stratum@.strata =~= stratum_from(
            views(names@),
            component_views(components@),
        ).strata);
        stratum
    }

    /// Stratifies the graph whose nodes are `relations` and the ends of
    /// `dependencies`, and whose edges lead from the first to the second
    /// predicate of each dependency. The strata part the nodes: none is
    /// empty, and each node stands in one, once. Every node gets a level,
    /// which is the position of its stratum; two predicates share a stratum
    /// exactly if each depends on the other; and no dependency leads to a
    /// higher level.
    pub fn new(relations: &Vec<String>, dependencies: &Vec<(String, String)>) -> (stratum: Stratum)
        ensures
            stratum@ == stratum_of(views(relations@), dependency_views(dependencies@)),
            covers(stratum@, node_names(views(relations@), dependency_views(dependencies@))),
            keys(stratum@.levels).no_duplicates(),
            strata_part(
                stratum@,
                node_names(views(relations@), dependency_views(dependencies@)),
            ),
            levels_match(stratum@),
            strata_are_components(
                stratum@,
                node_names(views(relations@), dependency_views(dependencies@)),
                dependency_views(dependencies@),
            ),
            respects(stratum@, dependency_views(dependencies@)),
    {
        let ghost deps = dependency_views(dependencies@);
        let mut all: Vec<String> = Vec::new();
        let mut r: usize = 0;
        while r < relations.len()
            invariant
                r <= relations.len(),
                views(all@) == views(relations@).take(r as int),
            decreases relations.len() - r,
        {
            let ghost before = views(all@);
            all.push(relations[r].clone());
            assert(views(all@) =~= before.push(relations@[r as int]@));
            assert(views(relations@).take(r + 1) =~= views(relations@).take(r as int).push(
                relations@[r as int]@,
            ));
            r = r + 1;
        }
        assert(views(relations@).take(relations@.len() as int) =~= views(relations@));
        let mut d: usize = 0;
        assert(views(all@) =~= views(relations@) + ends(deps, 0));
        while d < dependencies.len()
            invariant
                d <= dependencies.len(),
                deps == dependency_views(dependencies@),
                views(all@) == views(relations@) + ends(deps, d as int),
            decreases dependencies.len() - d,
        {
            let ghost before = views(all@);
            all.push(dependencies[d].0.clone());
            all.push(dependencies[d].1.clone());
            assert(views(all@) =~= before.push(deps[d as int].0).push(deps[d as int].1));
            assert(views(all@) =~= views(relations@) + ends(deps, d + 1));
            d = d + 1;
        }
        let names = dedup_names(&all);
        let ghost name_views = views(names@);
        assert(name_views == node_names(views(relations@), deps));
        let mut graph = graph_new();
        let mut i: usize = 0;
        assert(graph_nodes(graph) =~= numbers(0));
        while i < names.len()
            invariant
                i <= names.len(),
                graph_nodes(graph) == numbers(i as nat),
                graph_edges(graph) == Seq::<(usize, usize)>::empty(),
            decreases names.len() - i,
        {
            proof {
                if numbers(i as nat).contains(i) {
                    let k = choose|k: int|
                        0 <= k < numbers(i as nat).len() && numbers(i as nat)[k] == i;
                }
                assert(numbers(i as nat).push(i) =~= numbers((i + 1) as nat));
            }
            graph_add_node(&mut graph, i);
            i = i + 1;
        }
        let ghost numbered = edge_numbers(name_views, deps);
        let mut e: usize = 0;
        assert(numbered.take(0) =~= Seq::<(usize, usize)>::empty());
        proof {
            lemma_ends(deps, deps.len() as int);
            lemma_first_occurrences(views(all@));
        }
        while e < dependencies.len()
            invariant
                e <= dependencies.len(),
                deps == dependency_views(dependencies@),
                name_views == views(names@),
                name_views == first_occurrences(views(all@)),
                views(all@) == views(relations@) + ends(deps, deps.len() as int),
                forall|x: Seq<char>|
                    #[trigger] views(all@).contains(x) ==> first_occurrences(views(all@)).contains(
                        x,
                    ),
                forall|k: int|
                    0 <= k < deps.len() ==> ends(deps, deps.len() as int).contains(
                        (#[trigger] deps[k]).0,
                    ) && ends(deps, deps.len() as int).contains(deps[k].1),
                numbered == edge_numbers(name_views, deps),
                graph_nodes(graph) == numbers(names@.len() as nat),
                graph_edges(graph) == first_occurrences(numbered.take(e as int)),
            decreases dependencies.len() - e,
        {
            let a = find_name(&names, &dependencies[e].0);
            let b = find_name(&names, &dependencies[e].1);
            proof {
                let head = deps[e as int].0;
                let body = deps[e as int].1;
                let ends_all = ends(deps, deps.len() as int);
                let kh = choose|k: int| 0 <= k < ends_all.len() && ends_all[k] == head;
                let kb = choose|k: int| 0 <= k < ends_all.len() && ends_all[k] == body;
                assert(views(all@)[views(relations@).len() + kh] == head);
                assert(views(all@)[views(relations@).len() + kb] == body);
                assert(views(all@).contains(head));
                assert(views(all@).contains(body));
                lemma_index_of(name_views, head);
                lemma_index_of(name_views, body);
                assert(a < names@.len() && b < names@.len());
                let nodes = numbers(names@.len() as nat);
                assert(nodes[a as int] == a);
                assert(nodes[b as int] == b);
                assert(nodes.contains(a));
                assert(nodes.contains(b));
                assert(numbered[e as int] == (a, b));
                assert(numbered.take(e + 1).drop_last() =~= numbered.take(e as int));
                assert(numbered.take(e + 1).last() == (a, b));
            }
            graph_add_edge(&mut graph, a, b);
            e = e + 1;
        }
        assert(numbered.take(dependencies@.len() as int) =~= numbered);
        let components = graph_sccs(&graph);
        proof {
            lemma_partition_within(component_views(components@), names@.len() as nat);
            lemma_stratum_levels(views(relations@), deps, component_views(components@));
            lemma_strata_components(views(relations@), deps, component_views(components@));
            lemma_first_occurrences(views(all@));
            lemma_strata_part(views(names@), component_views(components@));
            lemma_levels_unique(
                views(names@),
                component_views(components@),
                components@.len() as int,
            );
        }
        Stratum::from_components(&names, &components)
    }

    /// The level of `relation`, if it has one.
    pub fn level(&self, relation: &String) -> (r: Option<usize>)
        ensures
            match r {
                Some(l) => self@.level(relation@) == Some(l as int),
                None => self@.level(relation@) is None,
            },
    {
        let ghost all = level_views(self.levels@);
        let mut k: usize = 0;
        assert(all.skip(0) =~= all);
        while k < self.levels.len()
            invariant
                k <= self.levels.len(),
                all == level_views(self.levels@),
                entry_index(all, relation@) == k + entry_index(all.skip(k as int), relation@),
            decreases self.levels.len() - k,
        {
            let ghost rest = all.skip(k as int);
            proof {
                assert(rest[0] == all[k as int]);
                assert(rest.drop_first() =~= all.skip(k + 1));
            }
            if self.levels[k].0 == *relation {
                return Some(self.levels[k].1);
            }
            k = k + 1;
        }
        assert(all.skip(k as int) =~= Seq::empty());
        None
    }

    /// The level of a relation that has one.
    pub fn get_level(&self, relation: &String) -> (level: usize)
        requires
            self@.level(relation@) is Some,
        ensures
            self@.level(relation@) == Some(level as int),
    {
        match self.level(relation) {
            Some(level) => level,
            None => 0,
        }
    }
}

} // verus!
