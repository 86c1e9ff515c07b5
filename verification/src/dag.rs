//! Directed graph of object and morphism nodes built from an AST, with
//! name resolution, topological scheduling, and the (currently
//! existence-only) commutativity check.

use vstd::prelude::*;
use vstd::string::*;
use crate::ast::{CategoryAST, Statement};

verus! {

/// Node in the DAG representing either an object or a morphism.
#[derive(Debug, Clone)]
pub enum DAGNode {
    /// Object node (input/output ports)
    Object { name: String },
    /// Morphism node (combinational logic)
    Morphism { name: String, from: String, to: String },
}

/// Edge in the DAG representing data flow.
#[derive(Debug, Clone)]
pub struct DAGEdge {
    /// Signal width in bits
    pub width: usize,
}

/// DAG representation of the category theory description.
///
/// Nodes live in an arena indexed by position; `edges` holds
/// (source, target, payload) triples; `node_indices` maps each declared
/// name to the arena index of its node, later registrations overwriting
/// earlier ones.
pub struct CategoryDAG {
    pub nodes: Vec<DAGNode>,
    pub edges: Vec<(usize, usize, DAGEdge)>,
    pub node_indices: Vec<(String, usize)>,
}

/// The name a statement declares, if any.
pub open spec fn decl_name(s: Statement) -> Option<Seq<char>> {
    match s {
        Statement::Object(name) => Some(name@),
        Statement::Morphism { name, from, to } => Some(name@),
        Statement::AssertCommute { lhs, rhs } => None,
    }
}

/// Whether a node is the one a statement declares.
pub open spec fn node_of_stmt(s: Statement, n: DAGNode) -> bool {
    match s {
        Statement::Object(name) => n matches DAGNode::Object { name: nn } && nn@ == name@,
        Statement::Morphism { name, from, to } => n matches DAGNode::Morphism {
            name: nn,
            from: nf,
            to: nt,
        } && nn@ == name@ && nf@ == from@ && nt@ == to@,
        Statement::AssertCommute { lhs, rhs } => false,
    }
}

/// How many nodes the first `k` statements declare.
pub open spec fn decl_count(stmts: Seq<Statement>, k: int) -> int
    decreases k,
{
    if k <= 0 {
        0
    } else {
        decl_count(stmts, k - 1) + if decl_name(stmts[k - 1]) is Some {
            1int
        } else {
            0int
        }
    }
}

/// The arena index of the node registered under `x` after the first `k`
/// statements: the node of the last statement declaring `x`, or `None`
/// if no statement does.
pub open spec fn last_decl(stmts: Seq<Statement>, k: int, x: Seq<char>) -> Option<int>
    decreases k,
{
    if k <= 0 {
        None
    } else if decl_name(stmts[k - 1]) == Some(x) {
        Some(decl_count(stmts, k - 1))
    } else {
        last_decl(stmts, k - 1, x)
    }
}

/// The edges contributed by the first `k` statements: each morphism
/// statement adds `from -> morphism` and `morphism -> to`, endpoints
/// resolved through the full name index.
pub open spec fn edge_list(stmts: Seq<Statement>, k: int) -> Seq<(int, int)>
    decreases k,
{
    if k <= 0 {
        Seq::empty()
    } else {
        edge_list(stmts, k - 1) + (match stmts[k - 1] {
            Statement::Morphism { name, from, to } => {
                let n = stmts.len() as int;
                if last_decl(stmts, n, from@) is Some && last_decl(stmts, n, to@) is Some
                    && last_decl(stmts, n, name@) is Some {
                    seq![
                        (last_decl(stmts, n, from@).unwrap(), last_decl(stmts, n, name@).unwrap()),
                        (last_decl(stmts, n, name@).unwrap(), last_decl(stmts, n, to@).unwrap()),
                    ]
                } else {
                    Seq::empty()
                }
            },
            _ => Seq::empty(),
        })
    }
}

/// The first name that a morphism statement at position `k` or later
/// references but that no statement declares: `from` is checked before
/// `to`, statements in order.
pub open spec fn first_unresolved_from(stmts: Seq<Statement>, k: int) -> Option<Seq<char>>
    decreases stmts.len() - k,
{
    if k < 0 || k >= stmts.len() {
        None
    } else {
        match stmts[k] {
            Statement::Morphism { name, from, to } => {
                let n = stmts.len() as int;
                if last_decl(stmts, n, from@) is None {
                    Some(from@)
                } else if last_decl(stmts, n, to@) is None {
                    Some(to@)
                } else {
                    first_unresolved_from(stmts, k + 1)
                }
            },
            _ => first_unresolved_from(stmts, k + 1),
        }
    }
}

/// The first unresolved reference in the statement sequence, if any.
pub open spec fn first_unresolved(stmts: Seq<Statement>) -> Option<Seq<char>> {
    first_unresolved_from(stmts, 0)
}

/// The name registered last under `x` in an association list, scanning
/// from the end.
pub open spec fn assoc_lookup(entries: Seq<(String, usize)>, x: Seq<char>) -> Option<int>
    decreases entries.len(),
{
    if entries.len() == 0 {
        None
    } else if entries.last().0@ == x {
        Some(entries.last().1 as int)
    } else {
        assoc_lookup(entries.drop_last(), x)
    }
}

impl CategoryDAG {
    /// The nodes of this graph correspond, in order, to the declaration
    /// statements of `stmts`, and the name index resolves every name to
    /// the node of its last declaration.
    pub open spec fn built_from(self, stmts: Seq<Statement>) -> bool {
        let n = stmts.len() as int;
        &&& self.nodes@.len() == decl_count(stmts, n)
        &&& forall|k: int|
            0 <= k < n && decl_name(stmts[k]) is Some ==> node_of_stmt(
                stmts[k],
                self.nodes@[decl_count(stmts, k)],
            )
        &&& forall|x: Seq<char>| #[trigger] assoc_lookup(self.node_indices@, x) == last_decl(
            stmts,
            n,
            x,
        )
        &&& self.edges@.len() == edge_list(stmts, n).len()
        &&& forall|i: int|
            0 <= i < self.edges@.len() ==> (#[trigger] self.edges@[i].0 as int,
            self.edges@[i].1 as int) == edge_list(stmts, n)[i] && self.edges@[i].2.width == 8
    }

    /// Every edge endpoint is a valid arena index.
    pub open spec fn wf(self) -> bool {
        forall|i: int|
            0 <= i < self.edges@.len() ==> (#[trigger] self.edges@[i]).0 < self.nodes@.len()
                && self.edges@[i].1 < self.nodes@.len()
    }

    pub fn new() -> (r: Self)
        ensures
            r.nodes@ == Seq::<DAGNode>::empty(),
            r.edges@ == Seq::<(usize, usize, DAGEdge)>::empty(),
            r.node_indices@ == Seq::<(String, usize)>::empty(),
    {
        Self { nodes: Vec::new(), edges: Vec::new(), node_indices: Vec::new() }
    }

    /// Build the DAG from an AST: one node per declaration, then one
    /// `from -> morphism` and one `morphism -> to` edge per morphism
    /// statement, every endpoint resolved through the name index.
    ///
    /// Fails with `Object <name> not found` on the first unresolved
    /// reference, and then builds no graph at all.
    pub fn from_ast(ast: &CategoryAST) -> (r: Result<Self, String>)
        ensures
            match r {
                Ok(dag) => first_unresolved(ast.statements@) is None && dag.built_from(
                    ast.statements@,
                ) && dag.wf(),
                Err(e) => first_unresolved(ast.statements@) is Some && e@ == "Object "@
                    + first_unresolved(ast.statements@).unwrap() + " not found"@,
            },
    {
        let ghost stmts = ast.statements@;
        let mut dag = Self::new();
        // First pass: add all objects and morphisms as nodes
        let mut k: usize = 0;
        while k < ast.statements.len()
            invariant
                stmts == ast.statements@,
                k <= stmts.len(),
                dag.nodes@.len() == decl_count(stmts, k as int),
                forall|j: int|
                    0 <= j < k && decl_name(stmts[j]) is Some ==> node_of_stmt(
                        stmts[j],
                        dag.nodes@[decl_count(stmts, j)],
                    ),
                forall|x: Seq<char>| #[trigger] assoc_lookup(dag.node_indices@, x) == last_decl(
                    stmts,
                    k as int,
                    x,
                ),
                dag.edges@.len() == 0,
            decreases stmts.len() - k,
        {
            let ghost old_index = dag.node_indices@;
            let ghost old_nodes = dag.nodes@;
            match &ast.statements[k] {
                Statement::Object(name) => {
                    let node_idx = dag.nodes.len();
                    dag.nodes.push(DAGNode::Object { name: name.clone() });
                    dag.node_indices.push((name.clone(), node_idx));
                    assert(dag.node_indices@.drop_last() =~= old_index);
                },
                Statement::Morphism { name, from, to } => {
                    let node_idx = dag.nodes.len();
                    dag.nodes.push(
                        DAGNode::Morphism {
                            name: name.clone(),
                            from: from.clone(),
                            to: to.clone(),
                        },
                    );
                    dag.node_indices.push((name.clone(), node_idx));
                    assert(dag.node_indices@.drop_last() =~= old_index);
                },
                Statement::AssertCommute { lhs, rhs } => {},
            }
            proof {
                assert forall|j: int| 0 <= j < k as int + 1 && decl_name(stmts[j]) is Some
                    implies node_of_stmt(stmts[j], dag.nodes@[decl_count(stmts, j)]) by {
                    if j < k as int {
                        lemma_decl_count_monotonic(stmts, 0, j);
                        lemma_decl_count_monotonic(stmts, j + 1, k as int);
                        assert(decl_count(stmts, j + 1) == decl_count(stmts, j) + 1);
                        assert(0 <= decl_count(stmts, j) < old_nodes.len());
                        assert(node_of_stmt(stmts[j], old_nodes[decl_count(stmts, j)]));
                        assert(dag.nodes@[decl_count(stmts, j)] == old_nodes[decl_count(
                            stmts,
                            j,
                        )]);
                    }
                }
                assert forall|x: Seq<char>| #[trigger] assoc_lookup(dag.node_indices@, x)
                    == last_decl(stmts, k as int + 1, x) by {
                    assert(assoc_lookup(old_index, x) == last_decl(stmts, k as int, x));
                }
            }
            k = k + 1;
        }
        let ghost n = stmts.len() as int;
        // Second pass: add edges based on morphism definitions
        let mut k: usize = 0;
        while k < ast.statements.len()
            invariant
                stmts == ast.statements@,
                k <= stmts.len(),
                n == stmts.len() as int,
                dag.nodes@.len() == decl_count(stmts, n),
                forall|j: int|
                    0 <= j < n && decl_name(stmts[j]) is Some ==> node_of_stmt(
                        stmts[j],
                        dag.nodes@[decl_count(stmts, j)],
                    ),
                forall|x: Seq<char>| #[trigger] assoc_lookup(dag.node_indices@, x) == last_decl(
                    stmts,
                    n,
                    x,
                ),
                first_unresolved(stmts) == first_unresolved_from(stmts, k as int),
                dag.edges@.len() == edge_list(stmts, k as int).len(),
                forall|i: int|
                    0 <= i < dag.edges@.len() ==> (#[trigger] dag.edges@[i].0 as int,
                    dag.edges@[i].1 as int) == edge_list(stmts, k as int)[i]
                        && dag.edges@[i].2.width == 8,
                dag.wf(),
            decreases stmts.len() - k,
        {
            match &ast.statements[k] {
                Statement::Morphism { name, from, to } => {
                    let morphism_idx = match index_lookup(&dag.node_indices, name) {
                        Some(i) => i,
                        None => {
                            proof {
                                lemma_decl_found(stmts, k as int, n);
                            }
                            return Err(err_morphism_not_found(name));
                        },
                    };
                    let from_idx = match index_lookup(&dag.node_indices, from) {
                        Some(i) => i,
                        None => {
                            return Err(err_object_not_found(from));
                        },
                    };
                    let to_idx = match index_lookup(&dag.node_indices, to) {
                        Some(i) => i,
                        None => {
                            return Err(err_object_not_found(to));
                        },
                    };
                    proof {
                        lemma_last_decl_range(stmts, n, from@);
                        lemma_last_decl_range(stmts, n, name@);
                        lemma_last_decl_range(stmts, n, to@);
                    }
                    let ghost pre_edges = dag.edges@;
                    // Add edge from source object to morphism
                    dag.edges.push((from_idx, morphism_idx, DAGEdge { width: 8 }));
                    // Add edge from morphism to target object
                    dag.edges.push((morphism_idx, to_idx, DAGEdge { width: 8 }));
                    assert(edge_list(stmts, k as int + 1) =~= edge_list(stmts, k as int)
                        + seq![
                        (last_decl(stmts, n, from@).unwrap(), last_decl(stmts, n, name@).unwrap()),
                        (last_decl(stmts, n, name@).unwrap(), last_decl(stmts, n, to@).unwrap()),
                    ]);
                },
                _ => {
                    assert(edge_list(stmts, k as int + 1) =~= edge_list(stmts, k as int));
                },
            }
            k = k + 1;
        }
        Ok(dag)
    }

    /// Get a topological ordering of the DAG: every node once, each
    /// edge's source before its target, ties broken by lowest arena
    /// index, so the order is deterministic and follows declaration
    /// order. A graph that cannot be ordered — the witness is a set of
    /// nodes all waiting on one another — yields a cycle error instead.
    #[verifier::rlimit(60)]
    pub fn get_execution_order(&self) -> (r: Result<Vec<usize>, String>)
        requires
            self.wf(),
        ensures
            match r {
                Ok(ord) => is_topo_order(self.nodes@.len() as int, self.edges@, ord@)
                    && scheduled_morphisms(self.nodes@, ord@, ord@.len() as int).len()
                    == morph_node_count(self.nodes@, self.nodes@.len() as int),
                Err(e) => (exists|s: Set<usize>|
                    blocked_set(self.edges@, self.nodes@.len() as int, s)) && e@
                    == "Cycle detected in DAG"@,
            },
    {
        let n = self.nodes.len();
        let mut placed: Vec<bool> = Vec::new();
        let mut i: usize = 0;
        while i < n
            invariant
                i <= n,
                placed@.len() == i,
                forall|j: int| 0 <= j < i ==> !placed@[j],
                count_unplaced(placed@) == i,
            decreases n - i,
        {
            let ghost pre = placed@;
            placed.push(false);
            assert(placed@.drop_last() =~= pre);
            i = i + 1;
        }
        proof {
            lemma_unplaced_morph_all_false(self.nodes@, placed@);
        }
        let mut order: Vec<usize> = Vec::new();
        while order.len() < n
            invariant
                self.wf(),
                n == self.nodes@.len(),
                sched_inv(self.edges@, n as int, placed@, order@),
                scheduled_morphisms(self.nodes@, order@, order@.len() as int).len()
                    + count_unplaced_morph(self.nodes@, placed@) == morph_node_count(
                    self.nodes@,
                    n as int,
                ),
            decreases n - order@.len(),
        {
            match find_ready(&self.edges, &placed, n) {
                None => {
                    proof {
                        lemma_blocked_set_exists(self.edges@, n as int, placed@);
                    }
                    return Err(String::from_str("Cycle detected in DAG"));
                },
                Some(c) => {
                    let ghost pre_placed = placed@;
                    let ghost pre_order = order@;
                    placed[c] = true;
                    order.push(c);
                    proof {
                        lemma_order_extended(self.edges@, n as int, pre_placed, pre_order, c);
                        lemma_unplaced_morph_update(self.nodes@, pre_placed, c as int);
                        lemma_scheduled_morphisms_push(
                            self.nodes@,
                            pre_order,
                            c,
                            pre_order.len() as int,
                        );
                        assert(scheduled_morphisms(self.nodes@, order@, order@.len() as int)
                            =~= scheduled_morphisms(
                            self.nodes@,
                            pre_order,
                            pre_order.len() as int,
                        ) + (match self.nodes@[c as int] {
                            DAGNode::Morphism { name, from, to } => seq![(name@, from@, to@)],
                            DAGNode::Object { name } => Seq::empty(),
                        }));
                    }
                },
            }
        }
        proof {
            lemma_count_unplaced_zero(placed@);
            lemma_unplaced_morph_all_true(self.nodes@, placed@);
            assert forall|k: int| 0 <= k < self.edges@.len() implies #[trigger] edge_respected(
                self.edges@,
                order@,
                k,
            ) by {
                assert(placed@[self.edges@[k].1 as int]);
            }
            assert(is_topo_order(n as int, self.edges@, order@));
        }
        Ok(order)
    }

    /// Validate that all commutativity assertions are satisfied.
    ///
    /// Current scope is existence-only: the morphism names referenced by
    /// an assertion exist by virtue of having been parsed, and neither
    /// path composability (codomain/domain chaining) nor behavioral
    /// equivalence is checked. Every assertion is therefore accepted;
    /// the gap is deliberate and documented, not a defect to fix here.
    pub fn validate_commutativity(&self, ast: &CategoryAST) -> (r: Result<(), String>)
        ensures
            r is Ok,
    {
        Ok(())
    }
}

/// Find the lowest-index node that is not yet placed and has no
/// unplaced predecessor, if one exists.
fn find_ready(edges: &Vec<(usize, usize, DAGEdge)>, placed: &Vec<bool>, n: usize) -> (r: Option<
    usize,
>)
    requires
        placed@.len() == n,
        forall|i: int| 0 <= i < edges@.len() ==> (#[trigger] edges@[i]).0 < n,
    ensures
        match r {
            Some(c) => c < n && !placed@[c as int] && (forall|k: int|
                0 <= k < edges@.len() && (#[trigger] edges@[k]).1 == c ==> placed@[edges@[k].0 as int]),
            None => forall|u: usize|
                (u as int) < n && !(#[trigger] placed@[u as int]) ==> exists|k: int|
                    0 <= k < edges@.len() && (#[trigger] edges@[k]).1 == u && !placed@[edges@[k].0 as int],
        },
{
    let mut v: usize = 0;
    while v < n
        invariant
            placed@.len() == n,
            v <= n,
            forall|i: int| 0 <= i < edges@.len() ==> (#[trigger] edges@[i]).0 < n,
            forall|u: usize|
                u < v && !(#[trigger] placed@[u as int]) ==> exists|k: int|
                    0 <= k < edges@.len() && (#[trigger] edges@[k]).1 == u && !placed@[edges@[k].0 as int],
        decreases n - v,
    {
        if !placed[v] {
            if !has_unplaced_pred(edges, placed, v) {
                return Some(v);
            }
        }
        v = v + 1;
    }
    None
}

/// True iff some edge enters `v` from a node not yet placed.
fn has_unplaced_pred(
    edges: &Vec<(usize, usize, DAGEdge)>,
    placed: &Vec<bool>,
    v: usize,
) -> (r: bool)
    requires
        forall|i: int| 0 <= i < edges@.len() ==> (#[trigger] edges@[i]).0 < placed@.len(),
    ensures
        r == exists|k: int|
            0 <= k < edges@.len() && (#[trigger] edges@[k]).1 == v && !placed@[edges@[k].0 as int],
{
    let mut i: usize = 0;
    while i < edges.len()
        invariant
            i <= edges@.len(),
            forall|i0: int| 0 <= i0 < edges@.len() ==> (#[trigger] edges@[i0]).0 < placed@.len(),
            forall|k: int|
                0 <= k < i ==> !((#[trigger] edges@[k]).1 == v && !placed@[edges@[k].0 as int]),
        decreases edges@.len() - i,
    {
        if edges[i].1 == v && !placed[edges[i].0] {
            return true;
        }
        i = i + 1;
    }
    false
}

/// There is an edge from `u` to `v`.
pub open spec fn has_edge(edges: Seq<(usize, usize, DAGEdge)>, u: usize, v: usize) -> bool {
    exists|k: int| 0 <= k < edges.len() && (#[trigger] edges[k]).0 == u && edges[k].1 == v
}

/// Edge number `k` goes from an earlier position of `ord` to a later one.
pub open spec fn edge_respected(
    edges: Seq<(usize, usize, DAGEdge)>,
    ord: Seq<usize>,
    k: int,
) -> bool {
    exists|i: int, j: int|
        0 <= i < j < ord.len() && ord[i] == edges[k].0 && ord[j] == edges[k].1
}

/// `ord` is a topological ordering of nodes `0 .. n`: every node listed
/// exactly once, and every edge's source listed before its target.
pub open spec fn is_topo_order(
    n: int,
    edges: Seq<(usize, usize, DAGEdge)>,
    ord: Seq<usize>,
) -> bool {
    &&& ord.len() == n
    &&& forall|i: int| 0 <= i < ord.len() ==> (#[trigger] ord[i]) < n
    &&& forall|i: int, j: int| 0 <= i < j < ord.len() ==> ord[i] != ord[j]
    &&& forall|k: int| 0 <= k < edges.len() ==> #[trigger] edge_respected(edges, ord, k)
}

/// A nonempty set of nodes below `n`, each of which has an incoming edge
/// from another member. Scheduling can never start inside such a set, so
/// its existence is the witness that a cycle blocks the graph.
pub open spec fn blocked_set(edges: Seq<(usize, usize, DAGEdge)>, n: int, s: Set<usize>) -> bool {
    &&& exists|v: usize| s.contains(v)
    &&& forall|v: usize| #[trigger] s.contains(v) ==> v < n
    &&& forall|v: usize| #[trigger] s.contains(v) ==> exists|k: int|
            0 <= k < edges.len() && (#[trigger] edges[k]).1 == v && s.contains(edges[k].0)
}

/// A directed cycle: a walk of length at least one that returns to its
/// first node, every step following an edge.
pub open spec fn is_cycle(edges: Seq<(usize, usize, DAGEdge)>, p: Seq<usize>) -> bool {
    &&& p.len() >= 2
    &&& p[0] == p.last()
    &&& forall|i: int| 0 <= i < p.len() - 1 ==> has_edge(edges, p[i], #[trigger] p[i + 1])
}

/// How many entries of `placed` are still false.
pub open spec fn count_unplaced(placed: Seq<bool>) -> int
    decreases placed.len(),
{
    if placed.len() == 0 {
        0
    } else {
        count_unplaced(placed.drop_last()) + if placed.last() {
            0int
        } else {
            1int
        }
    }
}

/// Placing one unplaced node lowers the unplaced count by one.
proof fn lemma_count_unplaced_update(placed: Seq<bool>, i: int)
    requires
        0 <= i < placed.len(),
        !placed[i],
    ensures
        count_unplaced(placed.update(i, true)) == count_unplaced(placed) - 1,
    decreases placed.len(),
{
    if i == placed.len() - 1 {
        assert(placed.update(i, true).drop_last() =~= placed.drop_last());
    } else {
        assert(placed.update(i, true).drop_last() =~= placed.drop_last().update(i, true));
        lemma_count_unplaced_update(placed.drop_last(), i);
    }
}

/// A zero unplaced count means every node is placed.
proof fn lemma_count_unplaced_zero(placed: Seq<bool>)
    requires
        count_unplaced(placed) == 0,
    ensures
        forall|v: int| 0 <= v < placed.len() ==> placed[v],
    decreases placed.len(),
{
    if placed.len() > 0 {
        lemma_count_unplaced_nonneg(placed.drop_last());
        lemma_count_unplaced_zero(placed.drop_last());
        assert forall|v: int| 0 <= v < placed.len() implies placed[v] by {
            if v < placed.len() - 1 {
                assert(placed.drop_last()[v]);
            }
        }
    }
}

/// The unplaced count is never negative.
proof fn lemma_count_unplaced_nonneg(placed: Seq<bool>)
    ensures
        count_unplaced(placed) >= 0,
    decreases placed.len(),
{
    if placed.len() > 0 {
        lemma_count_unplaced_nonneg(placed.drop_last());
    }
}

/// A positive unplaced count yields an unplaced node.
proof fn lemma_count_unplaced_pos(placed: Seq<bool>)
    requires
        count_unplaced(placed) > 0,
    ensures
        exists|v: int| 0 <= v < placed.len() && !placed[v],
    decreases placed.len(),
{
    if placed.len() > 0 {
        if placed.last() {
            lemma_count_unplaced_pos(placed.drop_last());
            let v = choose|v: int| 0 <= v < placed.drop_last().len() && !placed.drop_last()[v];
            assert(0 <= v < placed.len() && !placed[v]);
        } else {
            assert(!placed[placed.len() - 1]);
        }
    }
}

/// Prefix declaration counts split into object and morphism declarations.
proof fn lemma_decl_count_split(stmts: Seq<Statement>, k: int)
    requires
        0 <= k <= stmts.len(),
    ensures
        decl_count(stmts, k) == crate::ast::object_names(stmts.subrange(0, k)).len()
            + crate::ast::morphism_triples(stmts.subrange(0, k)).len(),
    decreases k,
{
    if k == 0 {
        assert(stmts.subrange(0, 0) =~= Seq::<Statement>::empty());
    } else {
        lemma_decl_count_split(stmts, k - 1);
        assert(stmts.subrange(0, k).drop_last() =~= stmts.subrange(0, k - 1));
        assert(stmts.subrange(0, k).last() == stmts[k - 1]);
    }
}

/// When no reference is unresolved, every morphism statement resolves.
proof fn lemma_all_resolved(stmts: Seq<Statement>, k: int, j: int)
    requires
        first_unresolved_from(stmts, k) is None,
        0 <= k <= j < stmts.len(),
    ensures
        (match stmts[j] {
            Statement::Morphism { name, from, to } => last_decl(stmts, stmts.len() as int, from@)
                is Some && last_decl(stmts, stmts.len() as int, to@) is Some,
            _ => true,
        }),
    decreases j - k,
{
    if k < j {
        lemma_all_resolved(stmts, k + 1, j);
    }
}

/// Two edges per morphism statement, when every reference resolves.
proof fn lemma_edge_count(stmts: Seq<Statement>, k: int)
    requires
        first_unresolved(stmts) is None,
        0 <= k <= stmts.len(),
    ensures
        edge_list(stmts, k).len() == 2 * crate::ast::morphism_triples(
            stmts.subrange(0, k),
        ).len(),
    decreases k,
{
    if k == 0 {
        assert(stmts.subrange(0, 0) =~= Seq::<Statement>::empty());
    } else {
        lemma_edge_count(stmts, k - 1);
        assert(stmts.subrange(0, k).drop_last() =~= stmts.subrange(0, k - 1));
        assert(stmts.subrange(0, k).last() == stmts[k - 1]);
        match stmts[k - 1] {
            Statement::Morphism { name, from, to } => {
                lemma_all_resolved(stmts, 0, k - 1);
                lemma_decl_found(stmts, k - 1, stmts.len() as int);
            },
            _ => {},
        }
    }
}

/// Counting declarations: one node per declaration, two edges per
/// morphism statement.
proof fn lemma_graph_counts(stmts: Seq<Statement>)
    requires
        first_unresolved(stmts) is None,
    ensures
        decl_count(stmts, stmts.len() as int) == crate::ast::object_names(stmts).len()
            + crate::ast::morphism_triples(stmts).len(),
        edge_list(stmts, stmts.len() as int).len() == 2 * crate::ast::morphism_triples(
            stmts,
        ).len(),
{
    lemma_decl_count_split(stmts, stmts.len() as int);
    lemma_edge_count(stmts, stmts.len() as int);
    assert(stmts.subrange(0, stmts.len() as int) =~= stmts);
}

/// For a well-formed input with N object declarations and M morphism
/// declarations whose references all resolve, the built graph holds
/// exactly N + M nodes and exactly 2 * M edges.
pub proof fn lemma_built_graph_counts(dag: CategoryDAG, stmts: Seq<Statement>)
    requires
        dag.built_from(stmts),
        first_unresolved(stmts) is None,
    ensures
        dag.nodes@.len() == crate::ast::object_names(stmts).len()
            + crate::ast::morphism_triples(stmts).len(),
        dag.edges@.len() == 2 * crate::ast::morphism_triples(stmts).len(),
{
    lemma_graph_counts(stmts);
}

/// Along a walk that follows edges, positions in a topological order
/// strictly increase from the first node to the last.
proof fn lemma_walk_increases(
    n: int,
    edges: Seq<(usize, usize, DAGEdge)>,
    ord: Seq<usize>,
    p: Seq<usize>,
)
    requires
        is_topo_order(n, edges, ord),
        p.len() >= 2,
        forall|i: int| 0 <= i < p.len() - 1 ==> has_edge(edges, p[i], #[trigger] p[i + 1]),
    ensures
        exists|a: int, b: int|
            0 <= a < b < ord.len() && ord[a] == p[0] && ord[b] == p[p.len() - 1],
    decreases p.len(),
{
    if p.len() == 2 {
        let j: int = 0;
        assert(has_edge(edges, p[j], p[j + 1]));
        let k = choose|k: int|
            0 <= k < edges.len() && (#[trigger] edges[k]).0 == p[0] && edges[k].1 == p[1];
        assert(edge_respected(edges, ord, k));
        let (a, b) = choose|a: int, b: int|
            0 <= a < b < ord.len() && ord[a] == edges[k].0 && ord[b] == edges[k].1;
        assert(0 <= a < b < ord.len() && ord[a] == p[0] && ord[b] == p[p.len() - 1]);
    } else {
        let q = p.drop_last();
        assert forall|i: int| 0 <= i < q.len() - 1 implies has_edge(edges, q[i], #[trigger] q[i
            + 1]) by {
            assert(has_edge(edges, p[i], p[i + 1]));
        }
        lemma_walk_increases(n, edges, ord, q);
        let (a, b) = choose|a: int, b: int|
            0 <= a < b < ord.len() && ord[a] == q[0] && ord[b] == q[q.len() - 1];
        let j: int = p.len() - 2;
        assert(has_edge(edges, p[j], p[j + 1]));
        assert(has_edge(edges, p[p.len() - 2], p[p.len() - 1]));
        let k = choose|k: int|
            0 <= k < edges.len() && (#[trigger] edges[k]).0 == p[p.len() - 2]
                && edges[k].1 == p[p.len() - 1];
        assert(edge_respected(edges, ord, k));
        let (c, d) = choose|c: int, d: int|
            0 <= c < d < ord.len() && ord[c] == edges[k].0 && ord[d] == edges[k].1;
        // ord lists q's last node once, so the two walks meet there
        assert(ord[b] == ord[c]);
        if b < c {
            assert(ord[b] != ord[c]);
        }
        if c < b {
            assert(ord[c] != ord[b]);
        }
        assert(b == c);
        assert(0 <= a < d < ord.len() && ord[a] == p[0] && ord[d] == p[p.len() - 1]);
    }
}

/// A directed cycle rules every topological ordering out: scheduling a
/// cyclic graph can never produce an order, only the cycle error.
pub proof fn lemma_cycle_excludes_topo_order(
    n: int,
    edges: Seq<(usize, usize, DAGEdge)>,
    ord: Seq<usize>,
    p: Seq<usize>,
)
    requires
        is_cycle(edges, p),
    ensures
        !is_topo_order(n, edges, ord),
{
    if is_topo_order(n, edges, ord) {
        lemma_walk_increases(n, edges, ord, p);
        let (a, b) = choose|a: int, b: int|
            0 <= a < b < ord.len() && ord[a] == p[0] && ord[b] == p[p.len() - 1];
        assert(ord[a] == ord[b]);
        assert(false);
    }
}

/// A walk of any requested length inside a blocked set, each node
/// reached by an edge from the next one listed.
proof fn lemma_blocked_walk(
    edges: Seq<(usize, usize, DAGEdge)>,
    n: int,
    s: Set<usize>,
    k: nat,
) -> (w: Seq<usize>)
    requires
        blocked_set(edges, n, s),
    ensures
        w.len() == k + 1,
        forall|i: int| 0 <= i < w.len() ==> s.contains(#[trigger] w[i]),
        forall|i: int| 0 <= i < w.len() - 1 ==> has_edge(edges, w[i + 1], #[trigger] w[i]),
    decreases k,
{
    if k == 0 {
        let v = choose|v: usize| s.contains(v);
        seq![v]
    } else {
        let w0 = lemma_blocked_walk(edges, n, s, (k - 1) as nat);
        let last = w0[w0.len() - 1];
        let kk = choose|kk: int|
            0 <= kk < edges.len() && (#[trigger] edges[kk]).1 == last && s.contains(edges[kk].0);
        let w = w0.push(edges[kk].0);
        assert forall|i: int| 0 <= i < w.len() - 1 implies has_edge(
            edges,
            w[i + 1],
            #[trigger] w[i],
        ) by {
            if i < w0.len() - 1 {
                assert(has_edge(edges, w0[i + 1], w0[i]));
            } else {
                assert(w[i] == last && w[i + 1] == edges[kk].0);
            }
        }
        w
    }
}

/// Every blocked set witnesses a directed cycle: the scheduler rejects
/// a graph only when one exists, so an acyclic graph always schedules.
pub proof fn lemma_blocked_set_has_cycle(edges: Seq<(usize, usize, DAGEdge)>, n: int, s: Set<usize>)
    requires
        blocked_set(edges, n, s),
    ensures
        exists|p: Seq<usize>| is_cycle(edges, p),
{
    let v0 = choose|v: usize| s.contains(v);
    assert(0 <= n);
    let w = lemma_blocked_walk(edges, n, s, n as nat);
    let wi = w.map_values(|u: usize| u as int);
    if wi.no_duplicates() {
        wi.unique_seq_to_set();
        assert forall|x: int| wi.to_set().contains(x) implies vstd::set_lib::set_int_range(
            0,
            n,
        ).contains(x) by {
            let i = choose|i: int| 0 <= i < wi.len() && wi[i] == x;
            assert(s.contains(w[i]));
        }
        vstd::set_lib::lemma_int_range(0, n);
        assert(wi.to_set() <= vstd::set_lib::set_int_range(0, n));
        vstd::set_lib::lemma_len_subset(wi.to_set(), vstd::set_lib::set_int_range(0, n));
        assert(false);
    }
    let (a, b) = choose|a: int, b: int|
        0 <= a < wi.len() && 0 <= b < wi.len() && a != b && wi[a] == wi[b];
    let (i, j) = if a < b {
        (a, b)
    } else {
        (b, a)
    };
    let p = Seq::new((j - i + 1) as nat, |m: int| w[j - m]);
    assert(p[0] == w[j] && p[p.len() - 1] == w[i]);
    assert forall|m: int| 0 <= m < p.len() - 1 implies has_edge(edges, p[m], #[trigger] p[m
        + 1]) by {
        let ii = j - m - 1;
        assert(has_edge(edges, w[ii + 1], w[ii]));
        assert(p[m] == w[ii + 1] && p[m + 1] == w[ii]);
    }
    assert(is_cycle(edges, p));
}

/// Whether a node is a morphism node.
pub open spec fn is_morphism_node(n: DAGNode) -> bool {
    match n {
        DAGNode::Morphism { name, from, to } => true,
        DAGNode::Object { name } => false,
    }
}

/// How many of the first `v` nodes are morphism nodes.
pub open spec fn morph_node_count(nodes: Seq<DAGNode>, v: int) -> int
    decreases v,
{
    if v <= 0 {
        0
    } else {
        morph_node_count(nodes, v - 1) + if is_morphism_node(nodes[v - 1]) {
            1int
        } else {
            0int
        }
    }
}

/// The (name, from, to) triples of the morphism nodes among the first
/// `k` scheduled nodes, in scheduled order.
pub open spec fn scheduled_morphisms(nodes: Seq<DAGNode>, ord: Seq<usize>, k: int) -> Seq<
    (Seq<char>, Seq<char>, Seq<char>),
>
    decreases k,
{
    if k <= 0 {
        Seq::empty()
    } else {
        scheduled_morphisms(nodes, ord, k - 1) + (match nodes[ord[k - 1] as int] {
            DAGNode::Morphism { name, from, to } => seq![(name@, from@, to@)],
            DAGNode::Object { name } => Seq::empty(),
        })
    }
}

/// How many unplaced nodes are morphism nodes.
spec fn count_unplaced_morph(nodes: Seq<DAGNode>, placed: Seq<bool>) -> int
    decreases placed.len(),
{
    if placed.len() == 0 {
        0
    } else {
        count_unplaced_morph(nodes, placed.drop_last()) + if !placed.last() && is_morphism_node(
            nodes[placed.len() - 1],
        ) {
            1int
        } else {
            0int
        }
    }
}

/// Before anything is placed, every morphism node counts as unplaced.
proof fn lemma_unplaced_morph_all_false(nodes: Seq<DAGNode>, placed: Seq<bool>)
    requires
        placed.len() <= nodes.len(),
        forall|i: int| 0 <= i < placed.len() ==> !placed[i],
    ensures
        count_unplaced_morph(nodes, placed) == morph_node_count(nodes, placed.len() as int),
    decreases placed.len(),
{
    if placed.len() > 0 {
        lemma_unplaced_morph_all_false(nodes, placed.drop_last());
    }
}

/// Placing node `c` removes exactly its own contribution.
proof fn lemma_unplaced_morph_update(nodes: Seq<DAGNode>, placed: Seq<bool>, c: int)
    requires
        0 <= c < placed.len(),
        placed.len() <= nodes.len(),
        !placed[c],
    ensures
        count_unplaced_morph(nodes, placed.update(c, true)) == count_unplaced_morph(nodes, placed)
            - (if is_morphism_node(nodes[c]) {
            1int
        } else {
            0int
        }),
    decreases placed.len(),
{
    if c == placed.len() - 1 {
        assert(placed.update(c, true).drop_last() =~= placed.drop_last());
    } else {
        assert(placed.update(c, true).drop_last() =~= placed.drop_last().update(c, true));
        lemma_unplaced_morph_update(nodes, placed.drop_last(), c);
    }
}

/// After everything is placed, no morphism node counts as unplaced.
proof fn lemma_unplaced_morph_all_true(nodes: Seq<DAGNode>, placed: Seq<bool>)
    requires
        forall|i: int| 0 <= i < placed.len() ==> placed[i],
    ensures
        count_unplaced_morph(nodes, placed) == 0,
    decreases placed.len(),
{
    if placed.len() > 0 {
        lemma_unplaced_morph_all_true(nodes, placed.drop_last());
    }
}

/// A scheduled prefix is unchanged by appending one more node.
proof fn lemma_scheduled_morphisms_push(nodes: Seq<DAGNode>, ord: Seq<usize>, c: usize, j: int)
    requires
        0 <= j <= ord.len(),
    ensures
        scheduled_morphisms(nodes, ord.push(c), j) == scheduled_morphisms(nodes, ord, j),
    decreases j,
{
    if j > 0 {
        lemma_scheduled_morphisms_push(nodes, ord, c, j - 1);
    }
}

/// Counting morphism nodes along the declaration prefix.
proof fn lemma_morph_count_prefix(dag: CategoryDAG, stmts: Seq<Statement>, k: int)
    requires
        dag.built_from(stmts),
        0 <= k <= stmts.len(),
    ensures
        morph_node_count(dag.nodes@, decl_count(stmts, k)) == crate::ast::morphism_triples(
            stmts.subrange(0, k),
        ).len(),
    decreases k,
{
    if k == 0 {
        assert(stmts.subrange(0, 0) =~= Seq::<Statement>::empty());
    } else {
        lemma_morph_count_prefix(dag, stmts, k - 1);
        lemma_decl_count_monotonic(stmts, 0, k - 1);
        assert(stmts.subrange(0, k).drop_last() =~= stmts.subrange(0, k - 1));
        assert(stmts.subrange(0, k).last() == stmts[k - 1]);
        if decl_name(stmts[k - 1]) is Some {
            assert(node_of_stmt(stmts[k - 1], dag.nodes@[decl_count(stmts, k - 1)]));
            assert(decl_count(stmts, k) == decl_count(stmts, k - 1) + 1);
            assert(morph_node_count(dag.nodes@, decl_count(stmts, k)) == morph_node_count(
                dag.nodes@,
                decl_count(stmts, k - 1),
            ) + if is_morphism_node(dag.nodes@[decl_count(stmts, k - 1)]) {
                1int
            } else {
                0int
            });
        } else {
            assert(decl_count(stmts, k) == decl_count(stmts, k - 1));
        }
    }
}

/// For a graph built from `stmts`, the number of morphism nodes equals
/// the number of morphism declarations: with the one top-level module
/// added, generation therefore emits M + 1 modules for M morphism
/// declarations, regardless of the object count.
pub proof fn lemma_built_morphism_count(dag: CategoryDAG, stmts: Seq<Statement>)
    requires
        dag.built_from(stmts),
    ensures
        morph_node_count(dag.nodes@, dag.nodes@.len() as int) == crate::ast::morphism_triples(
            stmts,
        ).len(),
{
    lemma_morph_count_prefix(dag, stmts, stmts.len() as int);
    assert(stmts.subrange(0, stmts.len() as int) =~= stmts);
}

/// Internal state of the scheduling loop: `order` lists distinct placed
/// nodes, every placed node is listed, and every edge into a placed
/// target is already respected.
pub open spec fn sched_inv(
    edges: Seq<(usize, usize, DAGEdge)>,
    n: int,
    placed: Seq<bool>,
    order: Seq<usize>,
) -> bool {
    &&& placed.len() == n
    &&& order.len() <= n
    &&& count_unplaced(placed) == n - order.len()
    &&& forall|i: int| 0 <= i < order.len() ==> (#[trigger] order[i]) < n
    &&& forall|i: int| 0 <= i < order.len() ==> placed[#[trigger] order[i] as int]
    &&& forall|v: int|
        0 <= v < n && #[trigger] placed[v] ==> exists|i: int|
            0 <= i < order.len() && order[i] as int == v
    &&& forall|i: int, j: int| 0 <= i < j < order.len() ==> order[i] != order[j]
    &&& forall|k: int|
        0 <= k < edges.len() && placed[(#[trigger] edges[k]).1 as int] ==> edge_respected(
            edges,
            order,
            k,
        )
}

/// Appending a ready node — unplaced, all predecessors placed — keeps
/// the scheduling invariant.
proof fn lemma_order_extended(
    edges: Seq<(usize, usize, DAGEdge)>,
    n: int,
    placed: Seq<bool>,
    order: Seq<usize>,
    c: usize,
)
    requires
        sched_inv(edges, n, placed, order),
        order.len() < n,
        c < n,
        !placed[c as int],
        forall|k: int|
            0 <= k < edges.len() && (#[trigger] edges[k]).1 == c ==> placed[edges[k].0 as int],
        forall|k: int|
            0 <= k < edges.len() ==> (#[trigger] edges[k]).0 < n && edges[k].1 < n,
    ensures
        sched_inv(edges, n, placed.update(c as int, true), order.push(c)),
{
    lemma_count_unplaced_update(placed, c as int);
    let placed2 = placed.update(c as int, true);
    let order2 = order.push(c);
    assert forall|i: int, j: int| 0 <= i < j < order2.len() implies order2[i] != order2[j] by {
        if j == order.len() {
            assert(placed[order[i] as int]);
        }
    }
    assert forall|v: int| 0 <= v < n && #[trigger] placed2[v] implies exists|i: int|
        0 <= i < order2.len() && order2[i] as int == v by {
        if v == c as int {
            assert(order2[order.len() as int] as int == v);
        } else {
            assert(placed[v]);
            let i = choose|i: int| 0 <= i < order.len() && order[i] as int == v;
            assert(order2[i] as int == v);
        }
    }
    assert forall|k: int|
        0 <= k < edges.len() && placed2[(#[trigger] edges[k]).1 as int] implies edge_respected(
        edges,
        order2,
        k,
    ) by {
        let e = edges[k];
        if e.1 == c {
            assert(placed[e.0 as int]);
            let i = choose|i: int| 0 <= i < order.len() && order[i] as int == e.0 as int;
            assert(order2[i] == e.0);
            assert(order2[order.len() as int] == e.1);
            assert(edge_respected(edges, order2, k));
        } else {
            assert(placed[e.1 as int]);
            assert(edge_respected(edges, order, k));
            let (i, j) = choose|i: int, j: int|
                0 <= i < j < order.len() && order[i] == e.0 && order[j] == e.1;
            assert(order2[i] == e.0 && order2[j] == e.1);
            assert(edge_respected(edges, order2, k));
        }
    }
}

/// When at least one node is unplaced and every unplaced node has an
/// unplaced predecessor, the unplaced nodes form a blocked set.
proof fn lemma_blocked_set_exists(edges: Seq<(usize, usize, DAGEdge)>, n: int, placed: Seq<bool>)
    requires
        placed.len() == n,
        n <= usize::MAX,
        count_unplaced(placed) > 0,
        forall|i: int| 0 <= i < edges.len() ==> (#[trigger] edges[i]).0 < n,
        forall|u: usize|
            (u as int) < n && !(#[trigger] placed[u as int]) ==> exists|k: int|
                0 <= k < edges.len() && (#[trigger] edges[k]).1 == u && !placed[edges[k].0 as int],
    ensures
        exists|s: Set<usize>| blocked_set(edges, n, s),
{
    let s = Set::new(|u: usize| (u as int) < n && !placed[u as int]);
    lemma_count_unplaced_pos(placed);
    let w = choose|w: int| 0 <= w < placed.len() && !placed[w];
    assert(s.contains(w as usize));
    assert forall|u: usize| #[trigger] s.contains(u) implies exists|k: int|
        0 <= k < edges.len() && (#[trigger] edges[k]).1 == u && s.contains(edges[k].0) by {
        let k = choose|k: int|
            0 <= k < edges.len() && (#[trigger] edges[k]).1 == u && !placed[edges[k].0 as int];
        assert(s.contains(edges[k].0));
    }
    assert(blocked_set(edges, n, s));
}

/// Every statement that declares a name is found by the full name index.
proof fn lemma_decl_found(stmts: Seq<Statement>, j: int, k: int)
    requires
        0 <= j < k <= stmts.len(),
        decl_name(stmts[j]) is Some,
    ensures
        last_decl(stmts, k, decl_name(stmts[j]).unwrap()) is Some,
    decreases k,
{
    if k == j + 1 {
        assert(decl_name(stmts[j]) == Some(decl_name(stmts[j]).unwrap()));
    } else {
        lemma_decl_found(stmts, j, k - 1);
    }
}

/// Declaration counts grow with the prefix length.
proof fn lemma_decl_count_monotonic(stmts: Seq<Statement>, k1: int, k2: int)
    requires
        k1 <= k2,
    ensures
        decl_count(stmts, k1) <= decl_count(stmts, k2),
    decreases k2 - k1,
{
    if k1 < k2 {
        lemma_decl_count_monotonic(stmts, k1, k2 - 1);
    }
}

/// A resolved name points into the arena prefix built by the first `k`
/// statements.
proof fn lemma_last_decl_range(stmts: Seq<Statement>, k: int, x: Seq<char>)
    requires
        last_decl(stmts, k, x) is Some,
        k <= stmts.len(),
    ensures
        0 <= last_decl(stmts, k, x).unwrap() < decl_count(stmts, k),
    decreases k,
{
    if k <= 0 {
    } else if decl_name(stmts[k - 1]) == Some(x) {
        lemma_decl_count_monotonic(stmts, 0, k - 1);
    } else {
        lemma_last_decl_range(stmts, k - 1, x);
        lemma_decl_count_monotonic(stmts, k - 1, k);
    }
}

/// Build the message for an unresolved object reference.
fn err_object_not_found(name: &String) -> (r: String)
    ensures
        r@ == "Object "@ + name@ + " not found"@,
{
    let mut s = String::from_str("Object ");
    s.append(name.as_str());
    s.append(" not found");
    s
}

/// Build the message for an unresolved morphism name.
fn err_morphism_not_found(name: &String) -> (r: String)
    ensures
        r@ == "Morphism "@ + name@ + " not found"@,
{
    let mut s = String::from_str("Morphism ");
    s.append(name.as_str());
    s.append(" not found");
    s
}

/// Look a name up in the index, returning the arena index registered
/// last under it.
fn index_lookup(entries: &Vec<(String, usize)>, x: &String) -> (r: Option<usize>)
    ensures
        match r {
            Some(i) => assoc_lookup(entries@, x@) == Some(i as int),
            None => assoc_lookup(entries@, x@) is None,
        },
{
    let mut k: usize = entries.len();
    assert(entries@.subrange(0, entries@.len() as int) =~= entries@);
    while k > 0
        invariant
            k <= entries@.len(),
            assoc_lookup(entries@.subrange(0, k as int), x@) == assoc_lookup(entries@, x@),
        decreases k,
    {
        k = k - 1;
        assert(entries@.subrange(0, k as int + 1).last() == entries@[k as int]);
        assert(entries@.subrange(0, k as int + 1).drop_last() =~= entries@.subrange(0, k as int));
        if entries[k].0.eq(x) {
            return Some(entries[k].1);
        }
    }
    assert(entries@.subrange(0, 0) =~= Seq::<(String, usize)>::empty());
    None
}

} // verus!
