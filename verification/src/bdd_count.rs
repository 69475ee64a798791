use crate::common::{
    contains, lemma_memo_kept_entry, lemma_memo_kept_same, lemma_memo_kept_twice, memo_kept, NodeId,
};
use crate::numeric::{
    lemma_power_adds, lemma_power_fits, lemma_power_grows, power, power_spec, CountValue,
};
use crate::table::{Node, NodeTable, NodeView, TableView};
use crate::traverse::{
    dfs, dfs_from, lemma_dfs_fresh, lemma_distinct_len, lemma_walk_leaf, lemma_walk_pair, seen_after,
};
use std::collections::{HashMap, HashSet};
use vstd::prelude::*;

verus! {

/// What a terminal with value `v` counts for under the target set `ss`.
pub open spec fn leaf_count<L>(ss: Seq<L>, v: L) -> nat {
    if ss.contains(v) {
        1
    } else {
        0
    }
}

/// The number of assignments to the variables that an edge from `id` to
/// `child` skips: two for each level strictly between the two nodes, and
/// for each level below `id` where the child is a terminal.
pub open spec fn skip_weight<L>(dd: TableView<L>, id: NodeId, child: NodeId) -> nat {
    power_spec(2, (dd.rank(id) - 1 - dd.rank(child)) as nat)
}

/// The number of assignments to the variables at and below the level of
/// `id` that lead from `id` to a terminal in `ss`, skipped variables being
/// free. The undetermined terminal counts for nothing.
pub open spec fn bdd_count_spec(dd: TableView<bool>, ss: Seq<bool>, id: NodeId) -> nat
    decreases dd.rank(id),
{
    if !dd.valid(id) {
        0
    } else {
        match dd.nodes[id as int] {
            NodeView::Terminal(v) => leaf_count(ss, v),
            NodeView::Undet => 0,
            NodeView::NonTerminal { header, children } => {
                if children.len() == 2 && dd.rank(children[0]) < dd.rank(id) && dd.rank(
                    children[1],
                ) < dd.rank(id) {
                    skip_weight(dd, id, children[0]) * bdd_count_spec(dd, ss, children[0])
                        + skip_weight(dd, id, children[1]) * bdd_count_spec(dd, ss, children[1])
                } else {
                    0
                }
            },
        }
    }
}

/// The number of paths from `id` to a terminal in `ss`: the diagram read
/// as a family of sets, with no weight for skipped variables.
pub open spec fn zdd_count_spec(dd: TableView<bool>, ss: Seq<bool>, id: NodeId) -> nat
    decreases dd.rank(id),
{
    if !dd.valid(id) {
        0
    } else {
        match dd.nodes[id as int] {
            NodeView::Terminal(v) => leaf_count(ss, v),
            NodeView::Undet => 0,
            NodeView::NonTerminal { header, children } => {
                if children.len() == 2 && dd.rank(children[0]) < dd.rank(id) && dd.rank(
                    children[1],
                ) < dd.rank(id) {
                    zdd_count_spec(dd, ss, children[0]) + zdd_count_spec(dd, ss, children[1])
                } else {
                    0
                }
            },
        }
    }
}

/// A memo of `bdd_count`: each entry is the count of its node.
pub open spec fn bdd_memo_ok<T: CountValue>(
    dd: TableView<bool>,
    ss: Seq<bool>,
    cache: Map<NodeId, T>,
) -> bool {
    forall|k: NodeId| #[trigger]
        cache.contains_key(k) ==> dd.valid(k) && cache[k].value() == bdd_count_spec(dd, ss, k)
}

/// A memo of `zdd_count`: each entry is the count of its node.
pub open spec fn zdd_memo_ok<T: CountValue>(
    dd: TableView<bool>,
    ss: Seq<bool>,
    cache: Map<NodeId, T>,
) -> bool {
    forall|k: NodeId| #[trigger]
        cache.contains_key(k) ==> dd.valid(k) && cache[k].value() == zdd_count_spec(dd, ss, k)
}

/// A count never exceeds the number of assignments to the variables at
/// and below the node.
pub proof fn lemma_bdd_count_bound(dd: TableView<bool>, ss: Seq<bool>, id: NodeId)
    requires
        dd.wf(),
    ensures
        bdd_count_spec(dd, ss, id) <= power_spec(2, dd.rank(id)),
    decreases dd.rank(id),
{
    lemma_power_grows(2, 0, dd.rank(id));
    if dd.valid(id) && dd.nodes[id as int] is NonTerminal {
        let children = dd.children(id);
        if children.len() == 2 && dd.rank(children[0]) < dd.rank(id) && dd.rank(children[1])
            < dd.rank(id) {
            lemma_edge_bound(dd, ss, id, children[0]);
            lemma_edge_bound(dd, ss, id, children[1]);
            assert(power_spec(2, dd.rank(id)) == 2 * power_spec(2, (dd.rank(id) - 1) as nat));
        }
    }
}

/// What one edge adds to a count is at most the number of assignments to
/// the variables below the node.
proof fn lemma_edge_bound(dd: TableView<bool>, ss: Seq<bool>, id: NodeId, child: NodeId)
    requires
        dd.wf(),
        dd.rank(child) < dd.rank(id),
    ensures
        skip_weight(dd, id, child) * bdd_count_spec(dd, ss, child) <= power_spec(
            2,
            (dd.rank(id) - 1) as nat,
        ),
        skip_weight(dd, id, child) >= 1,
    decreases dd.rank(id), 0int,
{
    lemma_bdd_count_bound(dd, ss, child);
    let e = (dd.rank(id) - 1 - dd.rank(child)) as nat;
    lemma_power_adds(2, e, dd.rank(child));
    lemma_power_grows(2, 0, e);
    assert(e + dd.rank(child) == (dd.rank(id) - 1) as nat);
    let w = skip_weight(dd, id, child);
    let c = bdd_count_spec(dd, ss, child);
    let b = power_spec(2, dd.rank(child));
    assert(w * c <= w * b) by (nonlinear_arith)
        requires
            c <= b,
    ;
}

/// A path count never exceeds the number of assignments either.
pub proof fn lemma_zdd_count_bound(dd: TableView<bool>, ss: Seq<bool>, id: NodeId)
    requires
        dd.wf(),
    ensures
        zdd_count_spec(dd, ss, id) <= power_spec(2, dd.rank(id)),
    decreases dd.rank(id),
{
    lemma_power_grows(2, 0, dd.rank(id));
    if dd.valid(id) && dd.nodes[id as int] is NonTerminal {
        let children = dd.children(id);
        if children.len() == 2 && dd.rank(children[0]) < dd.rank(id) && dd.rank(children[1])
            < dd.rank(id) {
            lemma_zdd_count_bound(dd, ss, children[0]);
            lemma_zdd_count_bound(dd, ss, children[1]);
            lemma_power_grows(2, dd.rank(children[0]), (dd.rank(id) - 1) as nat);
            lemma_power_grows(2, dd.rank(children[1]), (dd.rank(id) - 1) as nat);
            assert(power_spec(2, dd.rank(id)) == 2 * power_spec(2, (dd.rank(id) - 1) as nat));
        }
    }
}

/// For the empty target set both counts of every node are nothing.
pub proof fn lemma_count_of_nothing(dd: TableView<bool>, id: NodeId)
    ensures
        bdd_count_spec(dd, Seq::empty(), id) == 0,
        zdd_count_spec(dd, Seq::empty(), id) == 0,
    decreases dd.rank(id),
{
    if dd.valid(id) && dd.nodes[id as int] is NonTerminal {
        let children = dd.children(id);
        if children.len() == 2 && dd.rank(children[0]) < dd.rank(id) && dd.rank(children[1])
            < dd.rank(id) {
            lemma_count_of_nothing(dd, children[0]);
            lemma_count_of_nothing(dd, children[1]);
            assert(skip_weight(dd, id, children[0]) * 0 == 0);
            assert(skip_weight(dd, id, children[1]) * 0 == 0);
        }
    }
}

/// Both counts of a terminal are one where its value is a target, and
/// nothing otherwise.
pub proof fn lemma_count_of_terminal(dd: TableView<bool>, ss: Seq<bool>, id: NodeId, v: bool)
    requires
        dd.valid(id),
        dd.nodes[id as int] == NodeView::Terminal(v),
    ensures
        bdd_count_spec(dd, ss, id) == leaf_count(ss, v),
        zdd_count_spec(dd, ss, id) == leaf_count(ss, v),
        leaf_count(ss, v) == if ss.contains(v) { 1nat } else { 0nat },
{
}

/// The assignments that lead to true and those that lead to false are
/// all assignments: where no undetermined node can be reached from `id`,
/// the counts for true and for false add up to two to the number of
/// variables at and below `id`, which is also the count for both.
pub proof fn lemma_count_identity(
    dd: TableView<bool>,
    id: NodeId,
    only_true: Seq<bool>,
    only_false: Seq<bool>,
    both: Seq<bool>,
)
    requires
        dd.wf(),
        dd.undet_free(id),
        dd.binary(),
        only_true.contains(true) && !only_true.contains(false),
        only_false.contains(false) && !only_false.contains(true),
        both.contains(true) && both.contains(false),
    ensures
        bdd_count_spec(dd, only_true, id) + bdd_count_spec(dd, only_false, id) == power_spec(
            2,
            dd.rank(id),
        ),
        bdd_count_spec(dd, both, id) == power_spec(2, dd.rank(id)),
    decreases dd.rank(id),
{
    assert(dd.valid(id));
    match dd.nodes[id as int] {
        NodeView::Terminal(v) => {},
        NodeView::Undet => {},
        NodeView::NonTerminal { header, children } => {
            assert(dd.node_linked(id));
            assert(dd.is_nonterminal(id));
            assert(dd.children(id) == children);
            assert(children.len() == 2);
            let c0 = children[0];
            let c1 = children[1];
            assert(dd.rank(c0) < dd.rank(id) && dd.undet_free(c0));
            assert(dd.rank(c1) < dd.rank(id) && dd.undet_free(c1));
            lemma_count_identity(dd, c0, only_true, only_false, both);
            lemma_count_identity(dd, c1, only_true, only_false, both);
            let half = power_spec(2, (dd.rank(id) - 1) as nat);
            assert(power_spec(2, dd.rank(id)) == 2 * half);
            let w0 = skip_weight(dd, id, c0);
            let w1 = skip_weight(dd, id, c1);
            lemma_power_adds(2, (dd.rank(id) - 1 - dd.rank(c0)) as nat, dd.rank(c0));
            lemma_power_adds(2, (dd.rank(id) - 1 - dd.rank(c1)) as nat, dd.rank(c1));
            assert((dd.rank(id) - 1 - dd.rank(c0)) as nat + dd.rank(c0) == (dd.rank(id) - 1) as nat);
            assert((dd.rank(id) - 1 - dd.rank(c1)) as nat + dd.rank(c1) == (dd.rank(id) - 1) as nat);
            let t0 = bdd_count_spec(dd, only_true, c0);
            let f0 = bdd_count_spec(dd, only_false, c0);
            let t1 = bdd_count_spec(dd, only_true, c1);
            let f1 = bdd_count_spec(dd, only_false, c1);
            assert(w0 * t0 + w0 * f0 == w0 * (t0 + f0)) by (nonlinear_arith);
            assert(w1 * t1 + w1 * f1 == w1 * (t1 + f1)) by (nonlinear_arith);
        },
    }
}

/// The weight of the edge from `id` to `child` and what the edge adds to
/// the count can be held: `T` holds each power of two up to the weight,
/// and the weight times the count of the child.
pub open spec fn bdd_edge_fits<T: CountValue>(
    dd: TableView<bool>,
    ss: Seq<bool>,
    id: NodeId,
    child: NodeId,
) -> bool {
    &&& forall|i: nat|
        i <= dd.rank(id) - 1 - dd.rank(child) ==> T::fits(#[trigger] power_spec(2, i))
    &&& T::fits(skip_weight(dd, id, child) * bdd_count_spec(dd, ss, child))
}

/// The count of `id` can be computed in `T`: the type holds every number
/// that the computation meets, at `id` and below.
pub open spec fn bdd_count_fits<T: CountValue>(dd: TableView<bool>, ss: Seq<bool>, id: NodeId) -> bool
    decreases dd.rank(id),
{
    if !dd.valid(id) {
        true
    } else {
        match dd.nodes[id as int] {
            NodeView::Terminal(v) => T::fits(leaf_count(ss, v)),
            NodeView::Undet => T::fits(0),
            NodeView::NonTerminal { header, children } => {
                children.len() == 2 && dd.rank(children[0]) < dd.rank(id) && dd.rank(
                    children[1],
                ) < dd.rank(id) ==> {
                    &&& T::fits(2)
                    &&& bdd_edge_fits::<T>(dd, ss, id, children[0])
                    &&& bdd_count_fits::<T>(dd, ss, children[0])
                    &&& bdd_edge_fits::<T>(dd, ss, id, children[1])
                    &&& bdd_count_fits::<T>(dd, ss, children[1])
                    &&& T::fits(bdd_count_spec(dd, ss, id))
                }
            },
        }
    }
}

/// A type that holds two to the number of variables at and below a node
/// can hold the count of the node.
pub proof fn lemma_bdd_count_fits<T: CountValue>(dd: TableView<bool>, ss: Seq<bool>, id: NodeId)
    requires
        dd.wf(),
        T::fits(power_spec(2, dd.rank(id))),
    ensures
        bdd_count_fits::<T>(dd, ss, id),
    decreases dd.rank(id),
{
    let full = power_spec(2, dd.rank(id));
    lemma_power_grows(2, 0, dd.rank(id));
    T::lemma_fits_below(full, 1);
    T::lemma_fits_below(full, 0);
    if dd.valid(id) && dd.nodes[id as int] is NonTerminal {
        let children = dd.children(id);
        if children.len() == 2 && dd.rank(children[0]) < dd.rank(id) && dd.rank(children[1])
            < dd.rank(id) {
            lemma_power_grows(2, 1, dd.rank(id));
            assert(power_spec(2, 1) == 2 * power_spec(2, 0));
            T::lemma_fits_below(full, 2);
            lemma_bdd_count_bound(dd, ss, id);
            T::lemma_fits_below(full, bdd_count_spec(dd, ss, id));
            lemma_bdd_edge_fits::<T>(dd, ss, id, children[0]);
            lemma_bdd_edge_fits::<T>(dd, ss, id, children[1]);
        }
    }
}

proof fn lemma_bdd_edge_fits<T: CountValue>(
    dd: TableView<bool>,
    ss: Seq<bool>,
    id: NodeId,
    child: NodeId,
)
    requires
        dd.wf(),
        dd.rank(child) < dd.rank(id),
        T::fits(power_spec(2, dd.rank(id))),
    ensures
        bdd_edge_fits::<T>(dd, ss, id, child),
        bdd_count_fits::<T>(dd, ss, child),
    decreases dd.rank(id), 0int,
{
    let full = power_spec(2, dd.rank(id));
    let e = (dd.rank(id) - 1 - dd.rank(child)) as nat;
    lemma_power_grows(2, e, dd.rank(id));
    T::lemma_fits_below(full, power_spec(2, e));
    lemma_power_fits::<T>(2, e);
    lemma_edge_bound(dd, ss, id, child);
    lemma_power_grows(2, (dd.rank(id) - 1) as nat, dd.rank(id));
    T::lemma_fits_below(full, skip_weight(dd, id, child) * bdd_count_spec(dd, ss, child));
    lemma_power_grows(2, dd.rank(child), dd.rank(id));
    T::lemma_fits_below(full, power_spec(2, dd.rank(child)));
    lemma_bdd_count_fits::<T>(dd, ss, child);
}

/// The path count of `id` can be computed in `T`: the type holds every
/// number that the computation meets, at `id` and below.
pub open spec fn zdd_count_fits<T: CountValue>(dd: TableView<bool>, ss: Seq<bool>, id: NodeId) -> bool
    decreases dd.rank(id),
{
    if !dd.valid(id) {
        true
    } else {
        match dd.nodes[id as int] {
            NodeView::Terminal(v) => T::fits(leaf_count(ss, v)),
            NodeView::Undet => T::fits(0),
            NodeView::NonTerminal { header, children } => {
                children.len() == 2 && dd.rank(children[0]) < dd.rank(id) && dd.rank(
                    children[1],
                ) < dd.rank(id) ==> {
                    &&& zdd_count_fits::<T>(dd, ss, children[0])
                    &&& zdd_count_fits::<T>(dd, ss, children[1])
                    &&& T::fits(zdd_count_spec(dd, ss, id))
                }
            },
        }
    }
}

/// A type that holds two to the number of variables at and below a node
/// can hold the path count of the node.
pub proof fn lemma_zdd_count_fits<T: CountValue>(dd: TableView<bool>, ss: Seq<bool>, id: NodeId)
    requires
        dd.wf(),
        T::fits(power_spec(2, dd.rank(id))),
    ensures
        zdd_count_fits::<T>(dd, ss, id),
    decreases dd.rank(id),
{
    let full = power_spec(2, dd.rank(id));
    lemma_power_grows(2, 0, dd.rank(id));
    T::lemma_fits_below(full, 1);
    T::lemma_fits_below(full, 0);
    if dd.valid(id) && dd.nodes[id as int] is NonTerminal {
        let children = dd.children(id);
        if children.len() == 2 && dd.rank(children[0]) < dd.rank(id) && dd.rank(children[1])
            < dd.rank(id) {
            lemma_zdd_count_bound(dd, ss, id);
            T::lemma_fits_below(full, zdd_count_spec(dd, ss, id));
            lemma_power_grows(2, dd.rank(children[0]), dd.rank(id));
            lemma_power_grows(2, dd.rank(children[1]), dd.rank(id));
            T::lemma_fits_below(full, power_spec(2, dd.rank(children[0])));
            T::lemma_fits_below(full, power_spec(2, dd.rank(children[1])));
            lemma_zdd_count_fits::<T>(dd, ss, children[0]);
            lemma_zdd_count_fits::<T>(dd, ss, children[1]);
        }
    }
}

/// A hit in the memo is what a fresh computation gives: the count of a
/// node is a function of the diagram, the target set and the node alone.
pub proof fn lemma_bdd_memo_agrees<T: CountValue>(
    dd: TableView<bool>,
    ss: Seq<bool>,
    cache: Map<NodeId, T>,
    other: Map<NodeId, T>,
    id: NodeId,
)
    requires
        bdd_memo_ok(dd, ss, cache),
        bdd_memo_ok(dd, ss, other),
        cache.contains_key(id),
        other.contains_key(id),
    ensures
        cache[id].value() == other[id].value(),
        cache[id].value() == bdd_count_spec(dd, ss, id),
{
}

/// A hit in the memo of the path count is what a fresh computation
/// gives.
pub proof fn lemma_zdd_memo_agrees<T: CountValue>(
    dd: TableView<bool>,
    ss: Seq<bool>,
    cache: Map<NodeId, T>,
    other: Map<NodeId, T>,
    id: NodeId,
)
    requires
        zdd_memo_ok(dd, ss, cache),
        zdd_memo_ok(dd, ss, other),
        cache.contains_key(id),
        other.contains_key(id),
    ensures
        cache[id].value() == other[id].value(),
        cache[id].value() == zdd_count_spec(dd, ss, id),
{
}

/// The number of assignments to the variables at and below `node` under
/// which the diagram ends in a terminal of `ss`, read as a BDD: a variable
/// that an edge skips is free. `cache` is the memo of this diagram and
/// target set; it is consulted first and filled on the way: afterwards
/// it holds, beside what it held, the count of each node that the walk
/// from `node` met for the first time, the count of `node` among them.
pub fn bdd_count<T: CountValue>(
    dd: &NodeTable<bool>,
    ss: &[bool],
    node: NodeId,
    cache: &mut HashMap<NodeId, T>,
) -> (r: T)
    requires
        dd@.wf(),
        dd@.binary(),
        dd@.valid(node),
        bdd_count_fits::<T>(dd@, ss@, node),
        bdd_memo_ok(dd@, ss@, old(cache)@),
    ensures
        r.value() == bdd_count_spec(dd@, ss@, node),
        bdd_memo_ok(dd@, ss@, final(cache)@),
        memo_kept(old(cache)@, final(cache)@),
        final(cache)@.dom() == seen_after(dd@, node, old(cache)@.dom()),
        final(cache)@.contains_key(node),
        final(cache)@[node].value() == r.value(),
    decreases dd@.rank(node),
{
    broadcast use vstd::std_specs::hash::group_hash_axioms;

    let ghost held = cache@;
    proof {
        lemma_memo_kept_same(held);
    }
    if let Some(x) = cache.get(&node) {
        proof {
            lemma_walk_leaf(dd@, node, held.dom());
            assert(held.dom().insert(node) =~= held.dom());
        }
        return x.duplicate();
    }
    proof {
        if dd@.is_nonterminal(node) {
            lemma_walk_pair(dd@, node, held.dom());
        } else {
            lemma_walk_leaf(dd@, node, held.dom());
        }
    }
    let result = match dd.get_node(node).unwrap() {
        Node::Terminal(v) => {
            if contains(ss, v) {
                T::from_u32(1)
            } else {
                T::from_u32(0)
            }
        },
        Node::Undet => T::from_u32(0),
        Node::NonTerminal { header, children } => {
            proof {
                assert(dd@.node_linked(node));
                assert(dd@.node_descends(node));
                assert(dd@.is_nonterminal(node));
                assert(dd@.children(node) == children@);
                assert(dd@.rank(children@[0]) < dd@.rank(node));
                assert(dd@.rank(children@[1]) < dd@.rank(node));
            }
            let current_level = dd.level(node).unwrap();
            let low = bdd_edge_count(dd, ss, current_level, node, children[0], cache);
            let ghost then = cache@;
            let high = bdd_edge_count(dd, ss, current_level, node, children[1], cache);
            proof {
                lemma_memo_kept_twice(held, then, cache@);
            }
            low.plus(&high)
        },
    };
    let kept = result.duplicate();
    proof {
        lemma_memo_kept_entry(held, cache@, node, kept);
    }
    cache.insert(node, kept);
    assert(cache@.dom() =~= seen_after(dd@, node, held.dom()));
    result
}

/// What the edge from `node`, at `current_level`, to `child` adds to the
/// count of `node`.
fn bdd_edge_count<T: CountValue>(
    dd: &NodeTable<bool>,
    ss: &[bool],
    current_level: usize,
    node: NodeId,
    child: NodeId,
    cache: &mut HashMap<NodeId, T>,
) -> (r: T)
    requires
        dd@.wf(),
        dd@.binary(),
        dd@.valid(child),
        dd@.rank(node) == current_level + 1,
        dd@.rank(child) < dd@.rank(node),
        T::fits(2),
        bdd_edge_fits::<T>(dd@, ss@, node, child),
        bdd_count_fits::<T>(dd@, ss@, child),
        bdd_memo_ok(dd@, ss@, old(cache)@),
    ensures
        r.value() == skip_weight(dd@, node, child) * bdd_count_spec(dd@, ss@, child),
        bdd_memo_ok(dd@, ss@, final(cache)@),
        memo_kept(old(cache)@, final(cache)@),
        final(cache)@.dom() == seen_after(dd@, child, old(cache)@.dom()),
    decreases dd@.rank(node), 0int,
{
    let skipped = match dd.level(child) {
        Some(next_level) => current_level - next_level - 1,
        None => current_level,
    };
    let weight = power(T::from_u32(2), skipped);
    let below = bdd_count(dd, ss, child, cache);
    weight.times(&below)
}

/// The number of paths from `node` to a terminal of `ss`: the diagram
/// read as a ZDD, in which a skipped variable is absent, not free.
pub fn zdd_count<T: CountValue>(
    dd: &NodeTable<bool>,
    ss: &[bool],
    node: NodeId,
    cache: &mut HashMap<NodeId, T>,
) -> (r: T)
    requires
        dd@.wf(),
        dd@.binary(),
        dd@.valid(node),
        zdd_count_fits::<T>(dd@, ss@, node),
        zdd_memo_ok(dd@, ss@, old(cache)@),
    ensures
        r.value() == zdd_count_spec(dd@, ss@, node),
        zdd_memo_ok(dd@, ss@, final(cache)@),
        memo_kept(old(cache)@, final(cache)@),
        final(cache)@.dom() == seen_after(dd@, node, old(cache)@.dom()),
        final(cache)@.contains_key(node),
        final(cache)@[node].value() == r.value(),
    decreases dd@.rank(node),
{
    broadcast use vstd::std_specs::hash::group_hash_axioms;

    let ghost held = cache@;
    proof {
        lemma_memo_kept_same(held);
    }
    if let Some(x) = cache.get(&node) {
        proof {
            lemma_walk_leaf(dd@, node, held.dom());
            assert(held.dom().insert(node) =~= held.dom());
        }
        return x.duplicate();
    }
    proof {
        if dd@.is_nonterminal(node) {
            lemma_walk_pair(dd@, node, held.dom());
        } else {
            lemma_walk_leaf(dd@, node, held.dom());
        }
    }
    let result = match dd.get_node(node).unwrap() {
        Node::Terminal(v) => {
            if contains(ss, v) {
                T::from_u32(1)
            } else {
                T::from_u32(0)
            }
        },
        Node::Undet => T::from_u32(0),
        Node::NonTerminal { header, children } => {
            proof {
                assert(dd@.node_linked(node));
                assert(dd@.node_descends(node));
                assert(dd@.is_nonterminal(node));
                assert(dd@.children(node) == children@);
                let c0 = children@[0];
                let c1 = children@[1];
                assert(dd@.rank(c0) < dd@.rank(node));
                assert(dd@.rank(c1) < dd@.rank(node));
            }
            let low: T = zdd_count(dd, ss, children[0], cache);
            let ghost then = cache@;
            let high: T = zdd_count(dd, ss, children[1], cache);
            proof {
                lemma_memo_kept_twice(held, then, cache@);
            }
            low.plus(&high)
        },
    };
    let kept = result.duplicate();
    proof {
        lemma_memo_kept_entry(held, cache@, node, kept);
    }
    cache.insert(node, kept);
    assert(cache@.dom() =~= seen_after(dd@, node, held.dom()));
    result
}

/// How many nodes of `s` are non-terminals.
pub open spec fn inner_nodes<L>(dd: TableView<L>, s: Seq<NodeId>) -> nat
    decreases s.len(),
{
    if s.len() == 0 {
        0
    } else {
        inner_nodes(dd, s.drop_last()) + if dd.is_nonterminal(s.last()) {
            1nat
        } else {
            0nat
        }
    }
}

proof fn lemma_inner_nodes_concat<L>(dd: TableView<L>, a: Seq<NodeId>, b: Seq<NodeId>)
    ensures
        inner_nodes(dd, a + b) == inner_nodes(dd, a) + inner_nodes(dd, b),
        inner_nodes(dd, a) <= a.len(),
    decreases b.len(),
{
    if b.len() == 0 {
        assert(a + b =~= a);
    } else {
        assert((a + b).drop_last() =~= a + b.drop_last());
        lemma_inner_nodes_concat(dd, a, b.drop_last());
    }
    lemma_inner_nodes_len(dd, a);
}

proof fn lemma_inner_nodes_len<L>(dd: TableView<L>, a: Seq<NodeId>)
    ensures
        inner_nodes(dd, a) <= a.len(),
    decreases a.len(),
{
    if a.len() > 0 {
        lemma_inner_nodes_len(dd, a.drop_last());
    }
}

/// A type that holds one more than twice the number of nodes of the
/// table can hold the numbers that `node_count` meets.
pub proof fn lemma_node_count_fits<T: CountValue>(
    dd: TableView<bool>,
    node: NodeId,
    seen: Set<NodeId>,
)
    requires
        T::fits(2 * dd.nodes.len() + 1),
    ensures
        T::fits(2 * inner_nodes(dd, dfs(dd, node, seen)) + 1),
{
    let met = dfs(dd, node, seen);
    lemma_dfs_fresh(dd, node, seen);
    lemma_distinct_len(dd, met);
    lemma_inner_nodes_len(dd, met);
    T::lemma_fits_below((2 * dd.nodes.len() + 1) as nat, 2 * inner_nodes(dd, met) + 1);
}

/// The size of the part of the diagram below `node` that `cache` does not
/// hold yet: the number of its non-terminal nodes, the number of its
/// other nodes, and the number of edges into and inside it, which is one
/// more than twice the first. The nodes met are entered into `cache`.
/// The type has to hold the third number, the largest that is met.
pub fn node_count<T: CountValue>(
    dd: &NodeTable<bool>,
    node: NodeId,
    cache: &mut HashSet<NodeId>,
) -> (r: (T, T, T))
    requires
        dd@.wf(),
        dd@.binary(),
        dd@.valid(node),
        T::fits(2 * inner_nodes(dd@, dfs(dd@, node, old(cache)@)) + 1),
    ensures
        r.0.value() == inner_nodes(dd@, dfs(dd@, node, old(cache)@)),
        r.0.value() + r.1.value() == dfs(dd@, node, old(cache)@).len(),
        r.1.value() <= 2 * r.0.value() + 1,
        r.2.value() == 2 * r.0.value() + 1,
        final(cache)@ == old(cache)@.union(dfs(dd@, node, old(cache)@).to_set()),
    decreases dd@.rank(node),
{
    broadcast use vstd::std_specs::hash::group_hash_axioms;

    let ghost seen = cache@;
    let ghost met = dfs(dd@, node, seen);
    let ghost cap = 2 * inner_nodes(dd@, met) + 1;
    proof {
        T::lemma_fits_below(cap, 0);
        T::lemma_fits_below(cap, 1);
    }
    if cache.contains(&node) {
        assert(seen.union(met.to_set()) =~= seen);
        return (T::from_u32(0), T::from_u32(0), T::from_u32(1));
    }
    cache.insert(node);
    let ghost seen0 = seen.insert(node);
    match dd.get_node(node).unwrap() {
        Node::NonTerminal { header, children } => {
            let ghost first = dfs(dd@, children@[0], seen0);
            let ghost seen1 = seen0.union(first.to_set());
            let ghost second = dfs(dd@, children@[1], seen1);
            proof {
                assert(dd@.node_linked(node));
                assert(dd@.node_descends(node));
                assert(dd@.is_nonterminal(node));
                assert(dd@.children(node) == children@);
                assert(dd@.valid(children@[0]) && dd@.valid(children@[1]));
                assert(dd@.rank(children@[0]) < dd@.rank(node));
                assert(dd@.rank(children@[1]) < dd@.rank(node));
                let tail = dfs_from(dd@, node, 2, seen1.union(second.to_set()));
                assert(tail =~= Seq::<NodeId>::empty());
                assert(dfs_from(dd@, node, 1, seen1) =~= second + tail);
                assert(second + tail =~= second);
                assert(dfs_from(dd@, node, 0, seen0) =~= first + second);
                assert(met =~= (first + second).push(node));
                assert(met.drop_last() =~= first + second);
                assert(met.last() == node);
                lemma_inner_nodes_concat(dd@, first, second);
                assert(inner_nodes(dd@, met) == inner_nodes(dd@, first + second) + 1);
                T::lemma_fits_below(cap, 2 * inner_nodes(dd@, first) + 1);
                T::lemma_fits_below(cap, 2 * inner_nodes(dd@, second) + 1);
            }
            let (n0, v0, e0): (T, T, T) = node_count(dd, children[0], cache);
            let (n1, v1, e1): (T, T, T) = node_count(dd, children[1], cache);
            proof {
                assert(cache@ =~= seen.union(met.to_set())) by {
                    assert forall|y: NodeId| met.to_set().contains(y) <==> first.to_set().contains(
                        y,
                    ) || second.to_set().contains(y) || y == node by {
                        if first.to_set().contains(y) {
                            let j = choose|j: int| 0 <= j < first.len() && first[j] == y;
                            assert(met[j] == y);
                        }
                        if second.to_set().contains(y) {
                            let j = choose|j: int| 0 <= j < second.len() && second[j] == y;
                            assert(met[first.len() + j] == y);
                        }
                        if y == node {
                            assert(met[met.len() - 1] == y);
                        }
                        if met.to_set().contains(y) {
                            let j = choose|j: int| 0 <= j < met.len() && met[j] == y;
                            if j < first.len() {
                                assert(first[j] == y);
                            } else if j < first.len() + second.len() {
                                assert(second[j - first.len()] == y);
                            }
                        }
                    }
                }
                T::lemma_fits_below(cap, n0.value() + n1.value());
                T::lemma_fits_below(cap, n0.value() + n1.value() + 1);
                T::lemma_fits_below(cap, v0.value() + v1.value());
                T::lemma_fits_below(cap, e0.value() + e1.value());
                T::lemma_fits_below(cap, e0.value() + e1.value() + 1);
            }
            let one: T = T::from_u32(1);
            (n0.plus(&n1).plus(&one), v0.plus(&v1), e0.plus(&e1).plus(&one))
        },
        _ => {
            proof {
                assert(met =~= seq![node]);
                assert(met.drop_last() =~= Seq::<NodeId>::empty());
                assert(met.last() == node);
                assert(inner_nodes(dd@, met.drop_last()) == 0);
                assert(inner_nodes(dd@, met) == 0);
                assert(cache@ =~= seen.union(met.to_set())) by {
                    assert(met[0] == node);
                }
            }
            (T::from_u32(0), T::from_u32(1), T::from_u32(1))
        },
    }
}

} // verus!
