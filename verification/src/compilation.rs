//! Compiler driver: the options of a compilation, and the order in which
//! modules are compiled, found from their imports.

use crate::ast;
use crate::errors::CompilationError;
use crate::semantics::typechecker::{debug_text, push_debug_str};
use petgraph::graphmap::GraphMap;
use petgraph::Directed;
use vstd::prelude::*;

verus! {

/// What the compiler dumps while it works.
pub struct CompileOptions {
    pub dump_ast: bool,
    pub dump_bc: bool,
}

#[verifier::external_type_specification]
#[verifier::external_body]
pub struct ExDirected(petgraph::Directed);

#[verifier::external_type_specification]
#[verifier::external_body]
#[verifier::reject_recursive_types(N)]
#[verifier::reject_recursive_types(E)]
#[verifier::reject_recursive_types(D)]
#[verifier::reject_recursive_types(S)]
pub struct ExGraphMap<N, E, D, S: std::hash::BuildHasher>(petgraph::graphmap::GraphMap<N, E, D, S>);

/// The nodes of a dependency graph, in the order in which they were added.
pub uninterp spec fn graph_nodes(g: GraphMap<usize, i32, Directed>) -> Seq<usize>;

/// The edges of a dependency graph, each once, in the order in which they were first added.
pub uninterp spec fn graph_edges(g: GraphMap<usize, i32, Directed>) -> Seq<(usize, usize)>;

/// What `petgraph::algo::toposort` returns for a directed graph with these
/// nodes and edges, in these orders: the sorted nodes, or a node of a cycle.
pub uninterp spec fn toposort_of(nodes: Seq<usize>, edges: Seq<(usize, usize)>) -> Result<Seq<usize>, usize>;

/// The nodes with `n` added at the end, unless it is there already.
pub open spec fn with_node(nodes: Seq<usize>, n: usize) -> Seq<usize> {
    if nodes.contains(n) {
        nodes
    } else {
        nodes.push(n)
    }
}

/// `order` lists each node once and puts the source of each edge before its target.
pub open spec fn is_topo_order(nodes: Seq<usize>, edges: Seq<(usize, usize)>, order: Seq<usize>) -> bool {
    &&& order.len() == nodes.len()
    &&& order.no_duplicates()
    &&& forall|n: usize| nodes.contains(n) <==> order.contains(n)
    &&& forall|i: int, j: int|
        0 <= i < order.len() && 0 <= j < order.len() && #[trigger] edges.contains((order[i], order[j])) ==> i < j
}

/// `GraphMap::new`: an empty directed graph.
#[verifier::external_body]
fn graph_new() -> (g: GraphMap<usize, i32, Directed>)
    ensures
        graph_nodes(g) == Seq::<usize>::empty(),
        graph_edges(g) == Seq::<(usize, usize)>::empty(),
{
    GraphMap::new()
}

/// `GraphMap::add_node`: adds node `n` at the end of the nodes unless it
/// is there already, and returns `n`; the edges stay.
#[verifier::external_body]
fn graph_add_node(g: &mut GraphMap<usize, i32, Directed>, n: usize) -> (r: usize)
    ensures
        r == n,
        graph_nodes(*final(g)) == with_node(graph_nodes(*old(g)), n),
        graph_edges(*final(g)) == graph_edges(*old(g)),
{
    g.add_node(n)
}

/// `GraphMap::add_edge`: an edge that is there already only gets the new
/// weight, and the old weight comes back; a new edge is added at the end
/// of the edges, and its source, then its target, are added as nodes, and
/// nothing comes back.
#[verifier::external_body]
fn graph_add_edge(g: &mut GraphMap<usize, i32, Directed>, a: usize, b: usize, weight: i32) -> (r: Option<i32>)
    ensures
        graph_edges(*old(g)).contains((a, b)) ==> r is Some && graph_edges(*final(g)) == graph_edges(*old(g))
            && graph_nodes(*final(g)) == graph_nodes(*old(g)),
        !graph_edges(*old(g)).contains((a, b)) ==> r is None && graph_edges(*final(g)) == graph_edges(*old(g)).push(
            (a, b),
        ) && graph_nodes(*final(g)) == with_node(with_node(graph_nodes(*old(g)), a), b),
{
    g.add_edge(a, b, weight)
}

/// `petgraph::algo::toposort`: the result is named by `toposort_of`. As
/// its documentation says, it sorts the nodes where the graph has no cycle
/// (each node once, each before its successors), and else names a node of
/// a cycle, self loops included.
#[verifier::external_body]
fn graph_toposort(g: &GraphMap<usize, i32, Directed>) -> (r: Result<Vec<usize>, usize>)
    ensures
        match r {
            Ok(v) => toposort_of(graph_nodes(*g), graph_edges(*g)) == Ok::<Seq<usize>, usize>(v@),
            Err(n) => toposort_of(graph_nodes(*g), graph_edges(*g)) == Err::<Seq<usize>, usize>(n),
        },
        r is Ok <==> exists|o: Seq<usize>| is_topo_order(graph_nodes(*g), graph_edges(*g), o),
        r matches Ok(v) ==> is_topo_order(graph_nodes(*g), graph_edges(*g), v@),
        r matches Err(n) ==> graph_nodes(*g).contains(n),
{
    match petgraph::algo::toposort(g, None) {
        Ok(v) => Ok(v),
        Err(cycle) => Err(cycle.node_id()),
    }
}

/// The names of the modules that a program imports, in import order.
pub open spec fn dep_names(p: ast::Program) -> Seq<Seq<char>> {
    p.imports@.map_values(|i: ast::Import| ast::import_modname(i)@)
}

/// The names with `x` added at the end, unless it is there already.
pub open spec fn with_name(names: Seq<Seq<char>>, x: Seq<char>) -> Seq<Seq<char>> {
    if names.contains(x) {
        names
    } else {
        names.push(x)
    }
}

/// The position of the first `x` in `names`.
pub open spec fn first_index(names: Seq<Seq<char>>, x: Seq<char>) -> int
    decreases names.len(),
{
    if names.len() == 0 {
        0
    } else if names[0] == x {
        0
    } else {
        1 + first_index(names.drop_first(), x)
    }
}

/// The edges with `e` added at the end, unless it is there already.
pub open spec fn with_edge(edges: Seq<(usize, usize)>, e: (usize, usize)) -> Seq<(usize, usize)> {
    if edges.contains(e) {
        edges
    } else {
        edges.push(e)
    }
}

/// The name table and the edges after the imports `deps` of the module
/// with node `a`: each imported name gets a node, and an edge from `a`.
pub open spec fn deps_graph(names: Seq<Seq<char>>, edges: Seq<(usize, usize)>, a: usize, deps: Seq<Seq<char>>) -> (
    Seq<Seq<char>>,
    Seq<(usize, usize)>,
)
    decreases deps.len(),
{
    if deps.len() == 0 {
        (names, edges)
    } else {
        let prev = deps_graph(names, edges, a, deps.drop_last());
        let names2 = with_name(prev.0, deps.last());
        (names2, with_edge(prev.1, (a, first_index(names2, deps.last()) as usize)))
    }
}

/// The name table (node `i` is the module named `names[i]`) and the edges
/// of the dependency graph of the programs: each program's name, then the
/// names it imports, get nodes in the order first met, and each import an
/// edge from the importing module.
pub open spec fn dependency_graph(progs: Seq<ast::Program>) -> (Seq<Seq<char>>, Seq<(usize, usize)>)
    decreases progs.len(),
{
    if progs.len() == 0 {
        (Seq::empty(), Seq::empty())
    } else {
        let prev = dependency_graph(progs.drop_last());
        let p = progs.last();
        let names1 = with_name(prev.0, p.name@);
        deps_graph(names1, prev.1, first_index(names1, p.name@) as usize, dep_names(p))
    }
}

/// The nodes `0..n`.
pub open spec fn node_range(n: nat) -> Seq<usize> {
    Seq::new(n, |i: int| i as usize)
}

/// The module names in compilation order, each after the modules it
/// imports: the sorted dependency graph, reversed; or the name of a module
/// on a cycle.
pub open spec fn dependency_order(progs: Seq<ast::Program>) -> Result<Seq<Seq<char>>, Seq<char>> {
    let g = dependency_graph(progs);
    match toposort_of(node_range(g.0.len()), g.1) {
        Ok(order) => Ok(order.reverse().map_values(|k: usize| g.0[k as int])),
        Err(k) => Err(g.0[k as int]),
    }
}

/// The position of the program named `x`.
pub open spec fn prog_index(progs: Seq<ast::Program>, x: Seq<char>) -> int
    decreases progs.len(),
{
    if progs.len() == 0 {
        0
    } else if progs[0].name@ == x {
        0
    } else {
        1 + prog_index(progs.drop_first(), x)
    }
}

/// Some program has the name `x`.
pub open spec fn has_prog(progs: Seq<ast::Program>, x: Seq<char>) -> bool {
    exists|i: int| 0 <= i < progs.len() && (#[trigger] progs[i]).name@ == x
}

/// The programs in the order of the names; names of no program are skipped.
pub open spec fn programs_in_order(progs: Seq<ast::Program>, order: Seq<Seq<char>>) -> Seq<ast::Program>
    decreases order.len(),
{
    if order.len() == 0 {
        Seq::empty()
    } else {
        let prev = programs_in_order(progs, order.drop_last());
        if has_prog(progs, order.last()) {
            prev.push(progs[prog_index(progs, order.last())])
        } else {
            prev
        }
    }
}

/// `v[s]` is `progs[ix[s]]`, and `ix` names each position of `progs` once.
pub open spec fn permutes(v: Seq<ast::Program>, progs: Seq<ast::Program>, ix: Seq<int>) -> bool {
    &&& ix.len() == progs.len()
    &&& v.len() == ix.len()
    &&& ix.no_duplicates()
    &&& forall|s: int| 0 <= s < ix.len() ==> 0 <= #[trigger] ix[s] < progs.len() && v[s] == progs[ix[s]]
}

/// `v` holds the programs of `progs`, each once, in some order.
pub open spec fn is_permutation_of(v: Seq<ast::Program>, progs: Seq<ast::Program>) -> bool {
    exists|ix: Seq<int>| #[trigger] permutes(v, progs, ix)
}

/// The message of a dependency cycle through the module `name`.
pub open spec fn cycle_message(name: Seq<char>) -> Seq<char> {
    "Module dependency cycles : Cycle("@ + debug_text(name) + ")"@
}

/// The position of `x` in the name table, adding it at the end if it is not there.
fn name_id(names: &mut Vec<String>, x: &String) -> (id: usize)
    ensures
        names_view(final(names)@) == with_name(names_view(old(names)@), x@),
        id == first_index(names_view(final(names)@), x@),
        id < final(names)@.len(),
        names_view(old(names)@).contains(x@) ==> final(names)@.len() == old(names)@.len(),
        !names_view(old(names)@).contains(x@) ==> final(names)@.len() == old(names)@.len() + 1 && id == old(
            names,
        )@.len(),
{
    let ghost v0 = names_view(names@);
    let mut i: usize = 0;
    assert(v0.skip(0) =~= v0);
    while i < names.len()
        invariant
            i <= names@.len(),
            names_view(names@) == v0,
            forall|q: int| 0 <= q < i ==> v0[q] != x@,
            first_index(v0, x@) == i + first_index(v0.skip(i as int), x@),
        decreases names@.len() - i,
    {
        proof {
            assert(v0.skip(i as int).drop_first() =~= v0.skip(i + 1));
            assert(v0.skip(i as int)[0] == v0[i as int]);
        }
        if crate::text::str_eq(names[i].as_str(), x.as_str()) {
            proof {
                assert(v0.contains(x@));
            }
            return i;
        }
        i = i + 1;
    }
    proof {
        assert(!v0.contains(x@));
        assert(v0.skip(i as int) =~= Seq::<Seq<char>>::empty());
    }
    names.push(x.clone());
    proof {
        let v1 = names_view(names@);
        assert(v1 =~= v0.push(x@));
        lemma_first_index_push(v0, x@);
    }
    i
}

/// The views of a list of names.
pub open spec fn names_view(v: Seq<String>) -> Seq<Seq<char>> {
    v.map_values(|s: String| s@)
}

pub proof fn lemma_first_index_push(v: Seq<Seq<char>>, x: Seq<char>)
    requires
        !v.contains(x),
    ensures
        first_index(v.push(x), x) == v.len(),
    decreases v.len(),
{
    if v.len() > 0 {
        assert(v.push(x).drop_first() =~= v.drop_first().push(x));
        assert(v[0] != x);
        if v.drop_first().contains(x) {
            let k = choose|k: int| 0 <= k < v.drop_first().len() && v.drop_first()[k] == x;
            assert(v[k + 1] == x);
        }
        lemma_first_index_push(v.drop_first(), x);
    }
}

pub proof fn lemma_with_node_range(n: nat, x: usize)
    requires
        x <= n,
    ensures
        with_node(node_range(n), x) == node_range(if x < n { n } else { n + 1 }),
{
    if x < n {
        assert(node_range(n)[x as int] == x);
    } else {
        assert(!node_range(n).contains(x)) by {
            if node_range(n).contains(x) {
                let k = choose|k: int| 0 <= k < node_range(n).len() && node_range(n)[k] == x;
            }
        }
        assert(node_range(n).push(x) =~= node_range(n + 1));
    }
}

/// The names of the table are distinct, and every edge joins two nodes of it.
pub open spec fn graph_wf(names: Seq<Seq<char>>, edges: Seq<(usize, usize)>) -> bool {
    &&& names.no_duplicates()
    &&& forall|i: int| 0 <= i < edges.len() ==> (#[trigger] edges[i]).0 < names.len() && edges[i].1 < names.len()
}

pub proof fn lemma_first_index_bound(names: Seq<Seq<char>>, x: Seq<char>)
    requires
        names.contains(x),
    ensures
        0 <= first_index(names, x) < names.len(),
        names[first_index(names, x)] == x,
    decreases names.len(),
{
    if names[0] != x {
        let k = choose|k: int| 0 <= k < names.len() && names[k] == x;
        assert(names.drop_first()[k - 1] == x);
        lemma_first_index_bound(names.drop_first(), x);
    }
}

/// Add the module named `x` to the graph: its node, as the name table says.
fn add_module(names: &mut Vec<String>, graph: &mut GraphMap<usize, i32, Directed>, x: &String) -> (id: usize)
    requires
        graph_wf(names_view(old(names)@), graph_edges(*old(graph))),
        graph_nodes(*old(graph)) == node_range(old(names)@.len() as nat),
    ensures
        names_view(final(names)@) == with_name(names_view(old(names)@), x@),
        id == first_index(names_view(final(names)@), x@),
        id < final(names)@.len(),
        graph_wf(names_view(final(names)@), graph_edges(*final(graph))),
        graph_nodes(*final(graph)) == node_range(final(names)@.len() as nat),
        graph_edges(*final(graph)) == graph_edges(*old(graph)),
{
    let ghost n0 = names@.len();
    let id = name_id(names, x);
    proof {
        assert(id <= n0) by {
            if id > n0 {
                assert(names@.len() <= n0 + 1);
            }
        }
        lemma_with_node_range(n0 as nat, id);
        assert(names@.len() == (if id < n0 { n0 } else { n0 + 1 })) by {
            if names_view(old(names)@).contains(x@) {
                lemma_first_index_bound(names_view(old(names)@), x@);
            }
        }
        if !names_view(old(names)@).contains(x@) {
            assert(names_view(names@) =~= names_view(old(names)@).push(x@));
        }
    }
    graph_add_node(graph, id);
    id
}

/// Add an edge from node `a` to the module named `x`.
fn add_import(names: &mut Vec<String>, graph: &mut GraphMap<usize, i32, Directed>, a: usize, x: &String)
    requires
        graph_wf(names_view(old(names)@), graph_edges(*old(graph))),
        graph_nodes(*old(graph)) == node_range(old(names)@.len() as nat),
        a < old(names)@.len(),
    ensures
        names_view(final(names)@) == with_name(names_view(old(names)@), x@),
        graph_edges(*final(graph)) == with_edge(
            graph_edges(*old(graph)),
            (a, first_index(names_view(final(names)@), x@) as usize),
        ),
        graph_wf(names_view(final(names)@), graph_edges(*final(graph))),
        graph_nodes(*final(graph)) == node_range(final(names)@.len() as nat),
{
    let ghost n0 = names@.len();
    let ghost e0 = graph_edges(*graph);
    let b = name_id(names, x);
    proof {
        if names_view(old(names)@).contains(x@) {
            lemma_first_index_bound(names_view(old(names)@), x@);
            assert(names@.len() == n0);
        } else {
            assert(names_view(names@) =~= names_view(old(names)@).push(x@));
            assert(b == n0);
            assert(!e0.contains((a, b))) by {
                if e0.contains((a, b)) {
                    let k = choose|k: int| 0 <= k < e0.len() && e0[k] == (a, b);
                    assert(e0[k].1 < n0);
                }
            }
        }
    }
    graph_add_edge(graph, a, b, 1);
    proof {
        let e1 = graph_edges(*graph);
        if !e0.contains((a, b)) {
            lemma_with_node_range(names@.len() as nat, a);
            lemma_with_node_range(names@.len() as nat, b);
            if b == n0 && !names_view(old(names)@).contains(x@) {
                lemma_with_node_range(n0 as nat, a);
                lemma_with_node_range(n0 as nat, b);
            }
            assert forall|i: int| 0 <= i < e1.len() implies (#[trigger] e1[i]).0 < names@.len() && e1[i].1
                < names@.len() by {
                if i < e0.len() {
                    assert(e1[i] == e0[i]);
                }
            }
        }
    }
}

/// The edge of the import of module `to` by module `from`.
pub open spec fn edge_of(names: Seq<Seq<char>>, from: Seq<char>, to: Seq<char>) -> (usize, usize) {
    (first_index(names, from) as usize, first_index(names, to) as usize)
}

/// Every program has a node, and every import an edge, in the graph.
pub open spec fn imports_recorded(progs: Seq<ast::Program>, names: Seq<Seq<char>>, edges: Seq<(usize, usize)>) -> bool {
    &&& forall|p: int| 0 <= p < progs.len() ==> names.contains(#[trigger] progs[p].name@)
    &&& forall|p: int, d: int|
        0 <= p < progs.len() && 0 <= d < dep_names(progs[p]).len() ==> names.contains(
            #[trigger] dep_names(progs[p])[d],
        ) && edges.contains(edge_of(names, progs[p].name@, #[trigger] dep_names(progs[p])[d]))
}

pub proof fn lemma_first_index_stable(v: Seq<Seq<char>>, x: Seq<char>, y: Seq<char>)
    requires
        v.contains(x),
    ensures
        first_index(with_name(v, y), x) == first_index(v, x),
        with_name(v, y).contains(x),
    decreases v.len(),
{
    let w = with_name(v, y);
    if !v.contains(y) {
        assert(w[v.len() as int] == y);
        if v[0] != x {
            let k = choose|k: int| 0 <= k < v.len() && v[k] == x;
            assert(v.drop_first()[k - 1] == x);
            assert(w.drop_first() =~= with_name(v.drop_first(), y)) by {
                if v.drop_first().contains(y) {
                    let q = choose|q: int| 0 <= q < v.drop_first().len() && v.drop_first()[q] == y;
                    assert(v[q + 1] == y);
                }
            }
            lemma_first_index_stable(v.drop_first(), x, y);
        }
        let k = choose|k: int| 0 <= k < v.len() && v[k] == x;
        assert(w[k] == x);
    }
}

pub proof fn lemma_recorded_grow(
    progs: Seq<ast::Program>,
    names: Seq<Seq<char>>,
    edges: Seq<(usize, usize)>,
    y: Seq<char>,
    edges2: Seq<(usize, usize)>,
)
    requires
        imports_recorded(progs, names, edges),
        forall|i: int| 0 <= i < edges.len() ==> edges2.contains(#[trigger] edges[i]),
    ensures
        imports_recorded(progs, with_name(names, y), edges2),
{
    let names2 = with_name(names, y);
    assert forall|p: int| 0 <= p < progs.len() implies names2.contains(#[trigger] progs[p].name@) by {
        lemma_first_index_stable(names, progs[p].name@, y);
    }
    assert forall|p: int, d: int|
        0 <= p < progs.len() && 0 <= d < dep_names(progs[p]).len() implies names2.contains(
            #[trigger] dep_names(progs[p])[d],
        ) && edges2.contains(edge_of(names2, progs[p].name@, #[trigger] dep_names(progs[p])[d])) by {
        let dn = dep_names(progs[p]);
        assert(names.contains(progs[p].name@));
        lemma_first_index_stable(names, progs[p].name@, y);
        lemma_first_index_stable(names, dn[d], y);
        let e = edge_of(names, progs[p].name@, dn[d]);
        assert(edges.contains(e));
        let q = choose|q: int| 0 <= q < edges.len() && edges[q] == e;
        assert(edges2.contains(edges[q]));
    }
}

pub proof fn lemma_with_edge_keeps(edges: Seq<(usize, usize)>, e: (usize, usize))
    ensures
        forall|i: int| 0 <= i < edges.len() ==> with_edge(edges, e).contains(#[trigger] edges[i]),
        with_edge(edges, e).contains(e),
{
    let w = with_edge(edges, e);
    assert forall|i: int| 0 <= i < edges.len() implies w.contains(#[trigger] edges[i]) by {
        if !edges.contains(e) {
            assert(w[i] == edges[i]);
        }
    }
    if !edges.contains(e) {
        assert(w[edges.len() as int] == e);
    }
}

pub proof fn lemma_first_index_of_distinct(names: Seq<Seq<char>>, a: int)
    requires
        names.no_duplicates(),
        0 <= a < names.len(),
    ensures
        first_index(names, names[a]) == a,
    decreases a,
{
    if a > 0 {
        assert(names[0] != names[a]);
        assert(names.drop_first()[a - 1] == names[a]);
        lemma_first_index_of_distinct(names.drop_first(), a - 1);
    }
}

/// Programs taken in the order of the sorted dependency graph, reversed,
/// come after the programs they import.
pub proof fn lemma_imports_first(
    progs: Seq<ast::Program>,
    names: Seq<Seq<char>>,
    edges: Seq<(usize, usize)>,
    ids: Seq<usize>,
    order_names: Seq<Seq<char>>,
    v: Seq<ast::Program>,
    pos: Seq<int>,
    ix: Seq<int>,
)
    requires
        imports_recorded(progs, names, edges),
        names.no_duplicates(),
        is_topo_order(node_range(names.len()), edges, ids),
        order_names == ids.reverse().map_values(|k: usize| names[k as int]),
        pos.len() == v.len(),
        ix.len() == v.len(),
        forall|s: int| 0 <= s < pos.len() ==> 0 <= #[trigger] pos[s] < order_names.len() && 0 <= ix[s] < progs.len()
            && v[s] == progs[ix[s]] && progs[ix[s]].name@ == order_names[pos[s]],
        forall|s: int, t: int| 0 <= s < t < pos.len() ==> #[trigger] pos[s] < #[trigger] pos[t],
    ensures
        forall|i: int, j: int|
            0 <= i < v.len() && 0 <= j < v.len() && #[trigger] dep_names(v[i]).contains(#[trigger] v[j].name@) ==> j < i,
{
    let n = ids.len();
    assert forall|i: int, j: int|
        0 <= i < v.len() && 0 <= j < v.len() && #[trigger] dep_names(v[i]).contains(#[trigger] v[j].name@) implies j < i by {
        assert(0 <= pos[i] < order_names.len());
        assert(0 <= pos[j] < order_names.len());
        let pi = ix[i];
        let pj = ix[j];
        assert(v[i] == progs[pi]);
        let dn = dep_names(progs[pi]);
        let d = choose|d: int| 0 <= d < dn.len() && dn[d] == v[j].name@;
        assert(dn[d] == dep_names(progs[pi])[d]);
        assert(0 <= pi < progs.len());
        assert(0 <= d < dep_names(progs[pi]).len());
        assert(names.contains(dep_names(progs[pi])[d]) && edges.contains(
            edge_of(names, progs[pi].name@, dep_names(progs[pi])[d]),
        ));
        let e = edge_of(names, progs[pi].name@, dn[d]);
        assert(edges.contains(e));
        let a = n - 1 - pos[i];
        let b = n - 1 - pos[j];
        assert(ids.reverse()[pos[i]] == ids[a]);
        assert(ids.reverse()[pos[j]] == ids[b]);
        assert(ids.contains(ids[a]));
        assert(ids.contains(ids[b]));
        assert(node_range(names.len()).contains(ids[a]));
        assert(node_range(names.len()).contains(ids[b]));
        let wa = choose|w: int| 0 <= w < names.len() && node_range(names.len())[w] == ids[a];
        let wb = choose|w: int| 0 <= w < names.len() && node_range(names.len())[w] == ids[b];
        assert(order_names[pos[i]] == names[ids[a] as int]);
        assert(order_names[pos[j]] == names[ids[b] as int]);
        lemma_first_index_of_distinct(names, ids[a] as int);
        lemma_first_index_of_distinct(names, ids[b] as int);
        assert(e == (ids[a], ids[b]));
        assert(a < b);
        if j >= i {
            if j > i {
                assert(pos[i] < pos[j]);
            }
        }
    }
}

/// Every program's name is in the sorted order.
pub proof fn lemma_all_named(
    progs: Seq<ast::Program>,
    names: Seq<Seq<char>>,
    edges: Seq<(usize, usize)>,
    ids: Seq<usize>,
    order_names: Seq<Seq<char>>,
)
    requires
        imports_recorded(progs, names, edges),
        is_topo_order(node_range(names.len()), edges, ids),
        order_names == ids.reverse().map_values(|k: usize| names[k as int]),
        names.len() <= usize::MAX,
    ensures
        forall|p: int| 0 <= p < progs.len() ==> order_names.contains(#[trigger] progs[p].name@),
{
    assert forall|p: int| 0 <= p < progs.len() implies order_names.contains(#[trigger] progs[p].name@) by {
        let x = progs[p].name@;
        assert(names.contains(x));
        let w = choose|w: int| 0 <= w < names.len() && names[w] == x;
        assert(node_range(names.len())[w] == w as usize);
        assert(node_range(names.len()).contains(w as usize));
        assert(ids.contains(w as usize));
        let q = choose|q: int| 0 <= q < ids.len() && ids[q] == w as usize;
        let t = ids.len() - 1 - q;
        assert(ids.reverse()[t] == ids[q]);
        assert(order_names[t] == names[ids.reverse()[t] as int]);
        assert(order_names[t] == x);
    }
}

/// A list of distinct indices below `n` that holds each of them has length `n`.
pub proof fn lemma_all_indices(ix: Seq<int>, n: int)
    requires
        0 <= n,
        ix.no_duplicates(),
        forall|s: int| 0 <= s < ix.len() ==> 0 <= #[trigger] ix[s] < n,
        forall|i: int| 0 <= i < n ==> ix.contains(i),
    ensures
        ix.len() == n,
{
    assert(ix.to_set() =~= vstd::set_lib::set_int_range(0, n));
    ix.unique_seq_to_set();
    vstd::set_lib::lemma_int_range(0, n);
}

/// Order the programs so that each comes after the programs it imports: the
/// module dependency graph is sorted, and the programs are taken in the
/// reverse of that order. A dependency cycle is an error that names a
/// module on it.
#[verifier::spinoff_prover]
#[verifier::rlimit(40)]
pub fn determine_dependecy_order(parsed_programs: Vec<ast::Program>) -> (r: Result<Vec<ast::Program>, CompilationError>)
    requires
        forall|i: int, j: int|
            0 <= i < j < parsed_programs@.len() ==> (#[trigger] parsed_programs@[i]).name@ != (#[trigger] parsed_programs@[j]).name@,
    ensures
        match dependency_order(parsed_programs@) {
            Ok(order) => r matches Ok(v) && v@ == programs_in_order(parsed_programs@, order),
            Err(name) => r matches Err(e) && e matches CompilationError::Simple(m) && m@ == cycle_message(name),
        },
        r matches Ok(v) ==> forall|i: int, j: int|
            0 <= i < v@.len() && 0 <= j < v@.len() && #[trigger] dep_names(v@[i]).contains(#[trigger] v@[j].name@) ==> j < i,
        r matches Ok(v) ==> v@.len() == parsed_programs@.len(),
        r matches Ok(v) ==> is_permutation_of(v@, parsed_programs@),
        r is Ok <==> exists|o: Seq<usize>| is_topo_order(
            node_range(dependency_graph(parsed_programs@).0.len()),
            dependency_graph(parsed_programs@).1,
            o,
        ),
{
    let ghost progs = parsed_programs@;
    let mut names: Vec<String> = Vec::new();
    let mut graph = graph_new();
    let mut k: usize = 0;
    proof {
        assert(progs.take(0) =~= Seq::<ast::Program>::empty());
        assert(names_view(names@) =~= Seq::<Seq<char>>::empty());
        assert(node_range(0) =~= Seq::<usize>::empty());
    }
    while k < parsed_programs.len()
        invariant
            k <= progs.len(),
            progs == parsed_programs@,
            names_view(names@) == dependency_graph(progs.take(k as int)).0,
            graph_edges(graph) == dependency_graph(progs.take(k as int)).1,
            graph_wf(names_view(names@), graph_edges(graph)),
            graph_nodes(graph) == node_range(names@.len() as nat),
            imports_recorded(progs.take(k as int), names_view(names@), graph_edges(graph)),
        decreases progs.len() - k,
    {
        let program = &parsed_programs[k];
        proof {
            assert(progs.take(k + 1).drop_last() =~= progs.take(k as int));
            assert(progs.take(k + 1).last() == progs[k as int]);
        }
        let ghost names0 = names_view(names@);
        let a = add_module(&mut names, &mut graph, &program.name);
        let ghost names1 = names_view(names@);
        let ghost edges0 = graph_edges(graph);
        proof {
            lemma_recorded_grow(progs.take(k as int), names0, edges0, program.name@, edges0);
            if !names0.contains(program.name@) {
                assert(names1[names0.len() as int] == program.name@);
            }
        }
        let deps = program.deps();
        let ghost dn = dep_names(*program);
        proof {
            assert(names_view(deps@) =~= dn);
            assert(dn.take(0) =~= Seq::<Seq<char>>::empty());
        }
        let mut j: usize = 0;
        while j < deps.len()
            invariant
                j <= deps@.len(),
                names_view(deps@) == dn,
                (names_view(names@), graph_edges(graph)) == deps_graph(names1, edges0, a, dn.take(j as int)),
                graph_wf(names_view(names@), graph_edges(graph)),
                graph_nodes(graph) == node_range(names@.len() as nat),
                a < names@.len(),
                dn == dep_names(progs[k as int]),
                imports_recorded(progs.take(k as int), names_view(names@), graph_edges(graph)),
                names_view(names@).contains(progs[k as int].name@),
                a == first_index(names_view(names@), progs[k as int].name@),
                forall|d: int| 0 <= d < j ==> names_view(names@).contains(#[trigger] dn[d]) && graph_edges(
                    graph,
                ).contains(edge_of(names_view(names@), progs[k as int].name@, dn[d])),
            decreases deps@.len() - j,
        {
            proof {
                assert(dn.take(j + 1).drop_last() =~= dn.take(j as int));
                assert(dn.take(j + 1).last() == dn[j as int]);
            }
            let ghost nm = names_view(names@);
            let ghost ed = graph_edges(graph);
            add_import(&mut names, &mut graph, a, &deps[j]);
            proof {
                let x = dn[j as int];
                let nm2 = names_view(names@);
                let ed2 = graph_edges(graph);
                lemma_with_edge_keeps(ed, (a, first_index(nm2, x) as usize));
                lemma_recorded_grow(progs.take(k as int), nm, ed, x, ed2);
                lemma_first_index_stable(nm, progs[k as int].name@, x);
                if !nm.contains(x) {
                    assert(nm2[nm.len() as int] == x);
                }
                assert forall|d: int| 0 <= d < j + 1 implies nm2.contains(#[trigger] dn[d]) && ed2.contains(
                    edge_of(nm2, progs[k as int].name@, dn[d]),
                ) by {
                    if d < j {
                        lemma_first_index_stable(nm, dn[d], x);
                        let e = edge_of(nm, progs[k as int].name@, dn[d]);
                        let q = choose|q: int| 0 <= q < ed.len() && ed[q] == e;
                        assert(ed2.contains(ed[q]));
                    }
                }
            }
            j = j + 1;
        }
        proof {
            assert(dn.take(deps@.len() as int) =~= dn);
            let pk = progs.take(k + 1);
            let nm = names_view(names@);
            let ed = graph_edges(graph);
            assert forall|p: int| 0 <= p < pk.len() implies nm.contains(#[trigger] pk[p].name@) by {
                if p < k {
                    assert(pk[p] == progs.take(k as int)[p]);
                    assert(nm.contains(progs.take(k as int)[p].name@));
                } else {
                    assert(pk[p] == progs[k as int]);
                    assert(nm.contains(progs[k as int].name@));
                }
            }
            assert forall|p: int, d: int|
                0 <= p < pk.len() && 0 <= d < dep_names(pk[p]).len() implies nm.contains(
                    #[trigger] dep_names(pk[p])[d],
                ) && ed.contains(edge_of(nm, pk[p].name@, #[trigger] dep_names(pk[p])[d])) by {
                if p < k {
                    assert(pk[p] == progs.take(k as int)[p]);
                } else {
                    assert(pk[p] == progs[k as int]);
                    assert(dn[d] == dep_names(pk[p])[d]);
                }
            }
        }
        k = k + 1;
    }
    proof {
        assert(progs.take(progs.len() as int) =~= progs);
    }
    let total_names = names.len();
    let ghost g = dependency_graph(progs);
    let ghost mut ids: Seq<usize> = Seq::empty();
    let order = match graph_toposort(&graph) {
        Ok(node_ids) => {
            proof {
                ids = node_ids@;
                assert(names@.len() == g.0.len());
                assert(is_topo_order(node_range(g.0.len()), g.1, node_ids@));
            }
            let mut order: Vec<String> = Vec::new();
            let mut q: usize = node_ids.len();
            while q > 0
                invariant
                    q <= node_ids@.len(),
                    is_topo_order(node_range(names@.len() as nat), g.1, node_ids@),
                    names_view(names@) == g.0,
                    names_view(order@) == node_ids@.reverse().map_values(|k: usize| g.0[k as int]).take(
                        node_ids@.len() - q,
                    ),
                decreases q,
            {
                q = q - 1;
                let id = node_ids[q];
                proof {
                    assert(node_ids@.contains(id));
                    assert(node_range(names@.len() as nat).contains(id));
                    let w = choose|w: int| 0 <= w < names@.len() && node_range(names@.len() as nat)[w] == id;
                }
                let ghost before = names_view(order@);
                order.push(names[id].clone());
                proof {
                    let full = node_ids@.reverse().map_values(|k: usize| g.0[k as int]);
                    let t = node_ids@.len() - q - 1;
                    assert(node_ids@.reverse()[t] == node_ids@[q as int]);
                    assert(full[t] == g.0[id as int]);
                    assert(names_view(names@)[id as int] == names@[id as int]@);
                    assert(names_view(order@) =~= before.push(g.0[id as int]));
                    assert(names_view(order@) =~= full.take(node_ids@.len() - q));
                }
            }
            proof {
                let full = node_ids@.reverse().map_values(|k: usize| g.0[k as int]);
                assert(full.take(node_ids@.len() as int) =~= full);
                assert forall|i: int| 0 <= i < node_ids@.len() implies (#[trigger] node_ids@[i]) < g.0.len() by {
                    assert(node_ids@.contains(node_ids@[i]));
                    assert(node_range(names@.len() as nat).contains(node_ids@[i]));
                    let w = choose|w: int| 0 <= w < names@.len() && node_range(names@.len() as nat)[w] == node_ids@[i];
                }
                lemma_order_names_distinct(node_ids@, g.0);
                assert(names_view(order@) == ids.reverse().map_values(|k: usize| g.0[k as int]));
            }
            order
        },
        Err(cycle) => {
            proof {
                assert(names@.len() == g.0.len());
                assert(node_range(names@.len() as nat).contains(cycle));
                let w = choose|w: int| 0 <= w < names@.len() && node_range(names@.len() as nat)[w] == cycle;
            }
            let mut message = "Module dependency cycles : Cycle(".to_owned();
            push_debug_str(&mut message, names[cycle].as_str());
            message.append(")");
            return Err(CompilationError::simple(message));
        },
    };
    let ghost order_names = names_view(order@);
    // The programs, each in a slot of its own, in their order.
    let ghost n = progs.len();
    let mut rest = parsed_programs;
    let mut reversed: Vec<ast::Program> = Vec::new();
    while rest.len() > 0
        invariant
            reversed@.len() + rest@.len() == n,
            n == progs.len(),
            rest@ == progs.take(rest@.len() as int),
            forall|i: int| 0 <= i < reversed@.len() ==> #[trigger] reversed@[i] == progs[n - 1 - i],
        decreases rest@.len(),
    {
        let ghost before = rest@;
        match rest.pop() {
            Some(p) => {
                proof {
                    assert(p == progs[before.len() - 1]);
                    assert(rest@ =~= progs.take(rest@.len() as int));
                }
                reversed.push(p);
            },
            None => {},
        }
    }
    let mut slots: Vec<Option<ast::Program>> = Vec::new();
    while reversed.len() > 0
        invariant
            slots@.len() + reversed@.len() == n,
            n == progs.len(),
            forall|i: int| 0 <= i < slots@.len() ==> #[trigger] slots@[i] == Some(progs[i]),
            forall|i: int| 0 <= i < reversed@.len() ==> #[trigger] reversed@[i] == progs[n - 1 - i],
        decreases reversed@.len(),
    {
        let ghost before = reversed@;
        match reversed.pop() {
            Some(p) => {
                proof {
                    assert(p == before[before.len() - 1]);
                }
                slots.push(Some(p));
            },
            None => {},
        }
    }
    let mut sorted_programs: Vec<ast::Program> = Vec::new();
    let mut k: usize = 0;
    let ghost mut pos: Seq<int> = Seq::empty();
    let ghost mut ix: Seq<int> = Seq::empty();
    proof {
        assert(order_names.take(0) =~= Seq::<Seq<char>>::empty());
    }
    while k < order.len()
        invariant
            k <= order_names.len(),
            pos.len() == sorted_programs@.len(),
            ix.len() == sorted_programs@.len(),
            forall|s: int| 0 <= s < pos.len() ==> 0 <= #[trigger] pos[s] < k && 0 <= ix[s] < n && sorted_programs@[s]
                == progs[ix[s]] && progs[ix[s]].name@ == order_names[pos[s]],
            forall|s: int, t: int| 0 <= s < t < pos.len() ==> #[trigger] pos[s] < #[trigger] pos[t],
            ix.no_duplicates(),
            forall|i: int| 0 <= i < n ==> (ix.contains(i) <==> order_names.take(k as int).contains(
                #[trigger] progs[i].name@,
            )),
            order_names == names_view(order@),
            order_names.no_duplicates(),
            n == progs.len(),
            slots@.len() == n,
            forall|i: int, j: int| 0 <= i < j < n ==> (#[trigger] progs[i]).name@ != (#[trigger] progs[j]).name@,
            forall|i: int| 0 <= i < n ==> #[trigger] slots@[i] == (if order_names.take(k as int).contains(progs[i].name@) {
                None
            } else {
                Some(progs[i])
            }),
            sorted_programs@ == programs_in_order(progs, order_names.take(k as int)),
        decreases order_names.len() - k,
    {
        let ghost x = order_names[k as int];
        proof {
            assert(order_names.take(k + 1).drop_last() =~= order_names.take(k as int));
            assert(order_names.take(k + 1).last() == x);
            assert(!order_names.take(k as int).contains(x)) by {
                if order_names.take(k as int).contains(x) {
                    let w = choose|w: int| 0 <= w < k && #[trigger] order_names.take(k as int)[w] == x;
                    assert(order_names[w] == order_names[k as int]);
                }
            }
            assert forall|i: int| 0 <= i < n && progs[i].name@ != x implies (order_names.take(k + 1).contains(
                progs[i].name@,
            ) == order_names.take(k as int).contains(progs[i].name@)) by {
                if order_names.take(k + 1).contains(progs[i].name@) {
                    let w = choose|w: int| 0 <= w < k + 1 && #[trigger] order_names.take(k + 1)[w] == progs[i].name@;
                    assert(order_names.take(k as int)[w] == progs[i].name@);
                }
                if order_names.take(k as int).contains(progs[i].name@) {
                    let w = choose|w: int| 0 <= w < k && #[trigger] order_names.take(k as int)[w] == progs[i].name@;
                    assert(order_names.take(k + 1)[w] == progs[i].name@);
                }
            }
        }
        match find_slot(&slots, &order[k]) {
            Some(i) => {
                proof {
                    assert(slots@[i as int] == Some(progs[i as int]));
                    lemma_prog_index(progs, i as int);
                    assert(has_prog(progs, x));
                    assert(order_names.take(k + 1)[k as int] == x);
                }
                let taken = slots.remove(i);
                slots.insert(i, None);
                match taken {
                    Some(p) => {
                        sorted_programs.push(p);
                    },
                    None => {},
                }
                proof {
                    assert(!ix.contains(i as int));
                    let ix0 = ix;
                    pos = pos.push(k as int);
                    ix = ix.push(i as int);
                    assert forall|j: int| 0 <= j < n implies (ix.contains(j) <==> order_names.take(k + 1).contains(
                        #[trigger] progs[j].name@,
                    )) by {
                        if j != i {
                            assert(progs[j].name@ != x);
                            if ix.contains(j) {
                                let w = choose|w: int| 0 <= w < ix.len() && ix[w] == j;
                                assert(ix0[w] == j);
                            }
                            if ix0.contains(j) {
                                let w = choose|w: int| 0 <= w < ix0.len() && ix0[w] == j;
                                assert(ix[w] == j);
                            }
                        } else {
                            assert(ix[ix.len() - 1] == j);
                        }
                    }
                }
                proof {
                    assert forall|j: int| 0 <= j < n implies #[trigger] slots@[j] == (if order_names.take(k + 1).contains(
                        progs[j].name@,
                    ) {
                        None
                    } else {
                        Some(progs[j])
                    }) by {
                        if j != i {
                            assert(progs[j].name@ != x);
                        }
                    }
                }
            },
            None => {
                proof {
                    assert(!has_prog(progs, x)) by {
                        if has_prog(progs, x) {
                            let w = choose|w: int| 0 <= w < n && (#[trigger] progs[w]).name@ == x;
                            assert(slots@[w] == Some(progs[w]));
                        }
                    }
                }
            },
        }
        k = k + 1;
    }
    proof {
        assert(order_names.take(order_names.len() as int) =~= order_names);
        lemma_imports_first(progs, g.0, g.1, ids, order_names, sorted_programs@, pos, ix);
        assert(g.0.len() == total_names);
        lemma_all_named(progs, g.0, g.1, ids, order_names);
        assert forall|s: int| 0 <= s < ix.len() implies 0 <= #[trigger] ix[s] < n by {
            assert(0 <= pos[s] < k);
        }
        assert forall|i: int| 0 <= i < n implies ix.contains(i) by {
            assert(order_names.contains(progs[i].name@));
        }
        lemma_all_indices(ix, n as int);
        assert forall|s: int| 0 <= s < ix.len() implies 0 <= #[trigger] ix[s] < progs.len() && sorted_programs@[s]
            == progs[ix[s]] by {
            assert(0 <= pos[s] < k);
        }
        assert(permutes(sorted_programs@, progs, ix));
    }
    Ok(sorted_programs)
}

/// The slot that holds the program named `x`, if any.
fn find_slot(slots: &Vec<Option<ast::Program>>, x: &String) -> (r: Option<usize>)
    ensures
        r matches Some(i) ==> i < slots@.len() && (slots@[i as int] matches Some(p) && p.name@ == x@),
        r is None ==> forall|i: int| 0 <= i < slots@.len() ==> !(#[trigger] slots@[i] matches Some(p) && p.name@ == x@),
{
    let mut i: usize = 0;
    while i < slots.len()
        invariant
            i <= slots@.len(),
            forall|q: int| 0 <= q < i ==> !(#[trigger] slots@[q] matches Some(p) && p.name@ == x@),
        decreases slots@.len() - i,
    {
        let same = match &slots[i] {
            Some(p) => crate::text::str_eq(p.name.as_str(), x.as_str()),
            None => false,
        };
        if same {
            return Some(i);
        }
        i = i + 1;
    }
    None
}

pub proof fn lemma_prog_index(progs: Seq<ast::Program>, i: int)
    requires
        0 <= i < progs.len(),
        forall|a: int, b: int| 0 <= a < b < progs.len() ==> (#[trigger] progs[a]).name@ != (#[trigger] progs[b]).name@,
    ensures
        prog_index(progs, progs[i].name@) == i,
    decreases i,
{
    if i > 0 {
        assert(progs[0].name@ != progs[i].name@);
        assert(progs.drop_first()[i - 1] == progs[i]);
        lemma_prog_index(progs.drop_first(), i - 1);
    }
}

pub proof fn lemma_order_names_distinct(ids: Seq<usize>, names: Seq<Seq<char>>)
    requires
        ids.no_duplicates(),
        names.no_duplicates(),
        forall|i: int| 0 <= i < ids.len() ==> (#[trigger] ids[i]) < names.len(),
    ensures
        ids.reverse().map_values(|k: usize| names[k as int]).no_duplicates(),
{
    let r = ids.reverse().map_values(|k: usize| names[k as int]);
    assert forall|i: int, j: int| 0 <= i < r.len() && 0 <= j < r.len() && i != j implies r[i] != r[j] by {
        let a = ids[ids.len() - 1 - i];
        let b = ids[ids.len() - 1 - j];
        assert(a != b);
        assert(r[i] == names[a as int]);
        assert(r[j] == names[b as int]);
    }
}

} // verus!
