use crate::bdd_count::{bdd_count_spec, skip_weight};
use crate::common::{
    contains, lemma_memo_kept_entry, lemma_memo_kept_same, lemma_memo_kept_twice, memo_kept, Error,
    Leaf, NodeId,
};
use crate::numeric::power_spec;
use crate::numeric::{
    accumulate, assoc_add, assoc_add_defined, assoc_get, lookup, obeys_arith, one_spec,
    pairs_view, total_arith, zero_spec, ProbValue,
};
use crate::table::{Node, NodeTable, NodeView, TableView};
use crate::traverse::{
    before, cycle_after, cyclic_from, dfs, dfs_from, distinct, edge, is_topological, is_walk,
    lemma_cycle_after_root, lemma_cycle_after_shorter, lemma_cycle_found, lemma_dfs_undet_free,
    lemma_distinct_len, lemma_reverse_topological, lemma_set_of_concat, lemma_sorted_acyclic,
    lemma_walk_leaf, lemma_walk_pair, lemma_wf_acyclic, lemma_wf_linked, linked, seen_after,
    settled,
};
use std::collections::HashMap;
use vstd::prelude::*;
use vstd::std_specs::ops::{AddSpec, MulSpec, SubSpec};

verus! {

/// The probability that the diagram, entered at `id`, ends in a terminal
/// of `ss`, where `pv` gives for each label the probability that its
/// variable is true, and 0 for a label that it does not hold. The sum at
/// a node is taken as `(1 - p) * low + p * high`, in this order.
pub open spec fn prob_spec<T: ProbValue>(
    dd: TableView<bool>,
    pv: Seq<(Seq<char>, T)>,
    ss: Seq<bool>,
    id: NodeId,
) -> T
    decreases dd.rank(id),
{
    if !dd.valid(id) {
        zero_spec::<T>()
    } else {
        match dd.nodes[id as int] {
            NodeView::Terminal(v) => if ss.contains(v) {
                one_spec::<T>()
            } else {
                zero_spec::<T>()
            },
            NodeView::Undet => zero_spec::<T>(),
            NodeView::NonTerminal { header, children } => {
                if children.len() == 2 && dd.rank(children[0]) < dd.rank(id) && dd.rank(
                    children[1],
                ) < dd.rank(id) {
                    let p = label_prob(dd, pv, id);
                    let low = prob_spec(dd, pv, ss, children[0]);
                    let high = prob_spec(dd, pv, ss, children[1]);
                    mix_spec(p, low, high)
                } else {
                    zero_spec::<T>()
                }
            },
        }
    }
}

/// The mean of `low` and `high` with the weight `p` on `high`:
/// `(1 - p) * low + p * high`, in this order.
pub open spec fn mix_spec<T: ProbValue>(p: T, low: T, high: T) -> T {
    one_spec::<T>().sub_spec(p).mul_spec(low).add_spec(p.mul_spec(high))
}

/// The mean of `low` and `high` with the weight `p` can be taken: each
/// of its operations is defined on what it is given.
pub open spec fn mix_defined<T: ProbValue>(p: T, low: T, high: T) -> bool {
    let rest = one_spec::<T>().sub_spec(p);
    &&& one_spec::<T>().sub_req(p)
    &&& rest.mul_req(low)
    &&& p.mul_req(high)
    &&& rest.mul_spec(low).add_req(p.mul_spec(high))
}

/// The probability of `id` can be computed: at every node below, the
/// mean of the probabilities of the children can be taken. In a number
/// type with bounds this says that no operation leaves the bounds.
pub open spec fn prob_defined<T: ProbValue>(
    dd: TableView<bool>,
    pv: Seq<(Seq<char>, T)>,
    ss: Seq<bool>,
    id: NodeId,
) -> bool
    decreases dd.rank(id),
{
    if !dd.valid(id) {
        true
    } else {
        match dd.nodes[id as int] {
            NodeView::NonTerminal { header, children } => {
                children.len() == 2 && dd.rank(children[0]) < dd.rank(id) && dd.rank(
                    children[1],
                ) < dd.rank(id) ==> {
                    &&& prob_defined(dd, pv, ss, children[0])
                    &&& prob_defined(dd, pv, ss, children[1])
                    &&& mix_defined(
                        label_prob(dd, pv, id),
                        prob_spec(dd, pv, ss, children[0]),
                        prob_spec(dd, pv, ss, children[1]),
                    )
                }
            },
            _ => true,
        }
    }
}

/// Where the arithmetic of `T` is defined on all values, every
/// probability can be computed.
pub proof fn lemma_total_prob_defined<T: ProbValue>(
    dd: TableView<bool>,
    pv: Seq<(Seq<char>, T)>,
    ss: Seq<bool>,
    id: NodeId,
)
    requires
        total_arith::<T>(),
    ensures
        prob_defined(dd, pv, ss, id),
    decreases dd.rank(id),
{
    if dd.valid(id) && dd.nodes[id as int] is NonTerminal {
        let children = dd.children(id);
        if children.len() == 2 && dd.rank(children[0]) < dd.rank(id) && dd.rank(children[1])
            < dd.rank(id) {
            lemma_total_prob_defined(dd, pv, ss, children[0]);
            lemma_total_prob_defined(dd, pv, ss, children[1]);
        }
    }
}

/// The probability that `pv` gives for the variable of node `id`.
pub open spec fn label_prob<T: ProbValue>(
    dd: TableView<bool>,
    pv: Seq<(Seq<char>, T)>,
    id: NodeId,
) -> T {
    match assoc_get(pv, dd.header(id).label) {
        Some(p) => p,
        None => zero_spec::<T>(),
    }
}

/// A memo of `prob`: each entry belongs to a node from which no
/// undetermined node can be reached, and is its probability.
pub open spec fn prob_memo_ok<T: ProbValue>(
    dd: TableView<bool>,
    pv: Seq<(Seq<char>, T)>,
    ss: Seq<bool>,
    cache: Map<NodeId, T>,
) -> bool {
    forall|k: NodeId| #[trigger]
        cache.contains_key(k) ==> dd.undet_free(k) && cache[k] == prob_spec(dd, pv, ss, k)
}

/// A hit in the memo is what a fresh computation gives, down to the last
/// bit: the probability of a node is a function of the diagram, the
/// probabilities of the variables, the target set and the node alone.
pub proof fn lemma_prob_memo_agrees<T: ProbValue>(
    dd: TableView<bool>,
    pv: Seq<(Seq<char>, T)>,
    ss: Seq<bool>,
    cache: Map<NodeId, T>,
    other: Map<NodeId, T>,
    id: NodeId,
)
    requires
        prob_memo_ok(dd, pv, ss, cache),
        prob_memo_ok(dd, pv, ss, other),
        cache.contains_key(id),
        other.contains_key(id),
    ensures
        cache[id] == other[id],
        cache[id] == prob_spec(dd, pv, ss, id),
{
}

/// The error that an analysis gives for a node that it cannot evaluate:
/// the node is not in the table, or an undetermined node can be reached.
pub open spec fn refusal<L>(dd: TableView<L>, id: NodeId) -> Error {
    if !dd.valid(id) {
        Error::MissingNode
    } else {
        Error::InvalidDiagram
    }
}

/// A binary node is free of undetermined nodes exactly if both its
/// children are.
pub proof fn lemma_undet_free_binary<L>(dd: TableView<L>, id: NodeId)
    requires
        dd.wf(),
        dd.is_nonterminal(id),
        dd.children(id).len() == 2,
    ensures
        dd.undet_free(id) <==> dd.undet_free(dd.children(id)[0]) && dd.undet_free(
            dd.children(id)[1],
        ),
{
    assert(dd.node_descends(id));
    let children = dd.children(id);
    assert(dd.rank(children[0]) < dd.rank(id));
    assert(dd.rank(children[1]) < dd.rank(id));
    if dd.undet_free(children[0]) && dd.undet_free(children[1]) {
        assert forall|i: int| 0 <= i < children.len() implies dd.rank(#[trigger] children[i])
            < dd.rank(id) && dd.undet_free(children[i]) by {}
    }
}

/// The probability that the diagram, entered at `node`, ends in a terminal
/// of `ss`. Fails with `MissingNode` for a node that the table does not
/// hold and with `InvalidDiagram` where an undetermined node can be
/// reached. `cache` is the memo of this diagram, `pv` and `ss`: after
/// success it holds, beside what it held, the probability of each node
/// that the walk from `node` met for the first time.
pub fn prob<T: ProbValue>(
    dd: &NodeTable<bool>,
    node: NodeId,
    pv: &[(String, T)],
    ss: &[bool],
    cache: &mut HashMap<NodeId, T>,
) -> (r: Result<T, Error>)
    requires
        dd@.wf(),
        dd@.binary(),
        obeys_arith::<T>(),
        prob_defined(dd@, pairs_view(pv@), ss@, node),
        prob_memo_ok(dd@, pairs_view(pv@), ss@, old(cache)@),
    ensures
        match r {
            Ok(v) => {
                &&& dd@.undet_free(node)
                &&& v == prob_spec(dd@, pairs_view(pv@), ss@, node)
                &&& final(cache)@.dom() == seen_after(dd@, node, old(cache)@.dom())
                &&& final(cache)@.contains_key(node)
                &&& final(cache)@[node] == v
            },
            Err(e) => !dd@.undet_free(node) && e == refusal(dd@, node),
        },
        prob_memo_ok(dd@, pairs_view(pv@), ss@, final(cache)@),
        memo_kept(old(cache)@, final(cache)@),
    decreases dd@.rank(node),
{
    broadcast use vstd::std_specs::hash::group_hash_axioms;

    let ghost held = cache@;
    proof {
        lemma_memo_kept_same(held);
    }
    if let Some(x) = cache.get(&node) {
        proof {
            lemma_walk_leaf(dd@, node, held.dom());
            assert(held.dom().insert(node) =~= held.dom());
        }
        return Ok(*x);
    }
    proof {
        if dd@.valid(node) {
            if dd@.is_nonterminal(node) {
                lemma_walk_pair(dd@, node, held.dom());
            } else {
                lemma_walk_leaf(dd@, node, held.dom());
            }
        }
    }
    let result = match dd.get_node(node) {
        None => {
            return Err(Error::MissingNode);
        },
        Some(Node::Terminal(v)) => {
            if contains(ss, v) {
                T::from(1i8)
            } else {
                T::from(0i8)
            }
        },
        Some(Node::Undet) => {
            return Err(Error::InvalidDiagram);
        },
        Some(Node::NonTerminal { header, children }) => {
            proof {
                assert(dd@.node_linked(node));
                assert(dd@.node_descends(node));
                assert(dd@.is_nonterminal(node));
                assert(dd@.children(node) == children@);
                assert(dd@.rank(children@[0]) < dd@.rank(node));
                assert(dd@.rank(children@[1]) < dd@.rank(node));
                assert(dd@.valid(children@[0]) && dd@.valid(children@[1]));
                lemma_undet_free_binary(dd@, node);
            }
            let x = dd.label(node).unwrap();
            let fp = match lookup(pv, x) {
                Some(p) => p,
                None => T::from(0i8),
            };
            let low = match prob(dd, children[0], pv, ss, cache) {
                Ok(v) => v,
                Err(e) => {
                    return Err(e);
                },
            };
            let ghost then = cache@;
            let high = match prob(dd, children[1], pv, ss, cache) {
                Ok(v) => v,
                Err(e) => {
                    proof {
                        lemma_memo_kept_twice(held, then, cache@);
                    }
                    return Err(e);
                },
            };
            proof {
                lemma_memo_kept_twice(held, then, cache@);
            }
            (T::from(1i8) - fp) * low + fp * high
        },
    };
    proof {
        lemma_memo_kept_entry(held, cache@, node, result);
    }
    cache.insert(node, result);
    assert(cache@.dom() =~= seen_after(dd@, node, held.dom()));
    Ok(result)
}

/// How far the walk of the topological sort has come with a node.
#[derive(Clone, Copy, Debug, PartialEq, Eq, Structural)]
pub enum CheckedState {
    /// The node and all below it are in the order.
    Persistent,
    /// The walk is below the node.
    Temporary,
}

/// What the marks of the walk say: a node is marked `Temporary` while
/// the walk is below it, which are the nodes of `stack`, a walk along the
/// edges; it is marked `Persistent` once it stands in `result`, where
/// each node stands once and after its children.
pub open spec fn marks_ok<L>(
    dd: TableView<L>,
    check: Map<NodeId, CheckedState>,
    result: Seq<NodeId>,
    stack: Seq<NodeId>,
) -> bool {
    &&& (forall|k: NodeId| #[trigger]
        check.contains_key(k) ==> dd.valid(k) && (check[k] == CheckedState::Temporary
            <==> stack.contains(k)) && (check[k] == CheckedState::Persistent <==> result.contains(
            k,
        )))
    &&& (forall|i: int| 0 <= i < stack.len() ==> check.contains_key(#[trigger] stack[i]))
    &&& (forall|i: int| 0 <= i < result.len() ==> check.contains_key(#[trigger] result[i]))
    &&& distinct(stack)
    &&& distinct(result)
    &&& is_walk(dd, stack)
    &&& settled(dd, Set::empty(), result)
}

/// `x` is the last node of `s`.
pub open spec fn ends_with(s: Seq<NodeId>, x: NodeId) -> bool {
    s.len() > 0 && s.last() == x
}

/// The first `n` of `children` are marked `Persistent`.
pub open spec fn children_marked(
    check: Map<NodeId, CheckedState>,
    children: Seq<NodeId>,
    n: int,
) -> bool {
    forall|j: int|
        0 <= j < n && j < children.len() ==> check.contains_key(#[trigger] children[j])
            && check[children[j]] == CheckedState::Persistent
}

/// In a well formed table the walk from `x` has met what the walk of
/// [`dfs`] meets, in its order.
pub open spec fn walk_done<L>(
    dd: TableView<L>,
    x: NodeId,
    seen: Set<NodeId>,
    before: Seq<NodeId>,
    dom: Set<NodeId>,
    after: Seq<NodeId>,
) -> bool {
    dd.wf() ==> after == before + dfs(dd, x, seen) && dom == seen.union(dfs(dd, x, seen).to_set())
}

/// The walk goes below a node that has no mark yet.
proof fn lemma_enter<L>(
    dd: TableView<L>,
    check: Map<NodeId, CheckedState>,
    result: Seq<NodeId>,
    stack: Seq<NodeId>,
    x: NodeId,
)
    requires
        marks_ok(dd, check, result, stack),
        dd.valid(x),
        !check.contains_key(x),
        stack.len() > 0 ==> edge(dd, stack.last(), x),
    ensures
        marks_ok(dd, check.insert(x, CheckedState::Temporary), result, stack.push(x)),
        stack.len() < dd.nodes.len(),
{
    let c2 = check.insert(x, CheckedState::Temporary);
    let s2 = stack.push(x);
    assert(s2[stack.len() as int] == x);
    assert forall|k: NodeId| #[trigger] c2.contains_key(k) implies dd.valid(k) && (c2[k]
        == CheckedState::Temporary <==> s2.contains(k)) && (c2[k] == CheckedState::Persistent
        <==> result.contains(k)) by {
        if k == x {
            if result.contains(k) {
                let q = choose|q: int| 0 <= q < result.len() && result[q] == k;
                assert(check.contains_key(result[q]));
            }
        } else {
            assert(check.contains_key(k));
            if stack.contains(k) {
                let q = choose|q: int| 0 <= q < stack.len() && stack[q] == k;
                assert(s2[q] == k);
            }
            if s2.contains(k) {
                let q = choose|q: int| 0 <= q < s2.len() && s2[q] == k;
                assert(stack[q] == k);
            }
        }
    }
    assert forall|i: int| 0 <= i < s2.len() implies c2.contains_key(#[trigger] s2[i]) by {
        if i < stack.len() {
            assert(check.contains_key(stack[i]));
        }
    }
    assert forall|i: int| 0 <= i < result.len() implies c2.contains_key(#[trigger] result[i]) by {
        assert(check.contains_key(result[i]));
    }
    assert(distinct(s2)) by {
        assert forall|a: int, b: int| 0 <= a < b < s2.len() implies s2[a] != s2[b] by {
            if b == stack.len() {
                assert(check.contains_key(stack[a]));
            }
        }
    }
    assert(is_walk(dd, s2)) by {
        assert forall|i: int| 0 < i < s2.len() implies edge(dd, s2[i - 1], #[trigger] s2[i]) by {
            if i < stack.len() {
                assert(edge(dd, stack[i - 1], stack[i]));
            }
        }
    }
    assert forall|i: int| 0 <= i < s2.len() implies dd.valid(#[trigger] s2[i]) by {
        assert(c2.contains_key(s2[i]));
    }
    lemma_distinct_len(dd, s2);
}

/// The walk leaves a node whose children are all in the result.
proof fn lemma_leave<L>(
    dd: TableView<L>,
    check: Map<NodeId, CheckedState>,
    result: Seq<NodeId>,
    stack: Seq<NodeId>,
    x: NodeId,
)
    requires
        marks_ok(dd, check, result, stack.push(x)),
        dd.is_nonterminal(x) ==> children_marked(check, dd.children(x), dd.children(x).len() as int),
    ensures
        marks_ok(dd, check.insert(x, CheckedState::Persistent), result.push(x), stack),
{
    let c2 = check.insert(x, CheckedState::Persistent);
    let r2 = result.push(x);
    let s1 = stack.push(x);
    assert(s1[stack.len() as int] == x);
    assert(check.contains_key(s1[stack.len() as int]));
    assert(s1.contains(x));
    assert(check[x] == CheckedState::Temporary);
    assert(!result.contains(x));
    assert(r2[result.len() as int] == x);
    assert(!stack.contains(x)) by {
        if stack.contains(x) {
            let q = choose|q: int| 0 <= q < stack.len() && stack[q] == x;
            assert(s1[q] == x);
        }
    }
    assert forall|k: NodeId| #[trigger] c2.contains_key(k) implies dd.valid(k) && (c2[k]
        == CheckedState::Temporary <==> stack.contains(k)) && (c2[k] == CheckedState::Persistent
        <==> r2.contains(k)) by {
        assert(check.contains_key(k));
        if k != x {
            if stack.contains(k) {
                let q = choose|q: int| 0 <= q < stack.len() && stack[q] == k;
                assert(s1[q] == k);
            }
            if s1.contains(k) {
                let q = choose|q: int| 0 <= q < s1.len() && s1[q] == k;
                assert(stack[q] == k);
            }
            if result.contains(k) {
                let q = choose|q: int| 0 <= q < result.len() && result[q] == k;
                assert(r2[q] == k);
            }
            if r2.contains(k) {
                let q = choose|q: int| 0 <= q < r2.len() && r2[q] == k;
                assert(result[q] == k);
            }
        }
    }
    assert forall|i: int| 0 <= i < stack.len() implies c2.contains_key(#[trigger] stack[i]) by {
        assert(s1[i] == stack[i]);
        assert(check.contains_key(s1[i]));
    }
    assert forall|i: int| 0 <= i < r2.len() implies c2.contains_key(#[trigger] r2[i]) by {
        if i < result.len() {
            assert(check.contains_key(result[i]));
        }
    }
    assert(distinct(stack)) by {
        assert forall|a: int, b: int| 0 <= a < b < stack.len() implies stack[a] != stack[b] by {
            assert(s1[a] != s1[b]);
        }
    }
    assert(distinct(r2)) by {
        assert forall|a: int, b: int| 0 <= a < b < r2.len() implies r2[a] != r2[b] by {
            if b == result.len() {
                assert(result[a] == r2[a]);
            }
        }
    }
    assert(is_walk(dd, stack)) by {
        assert forall|i: int| 0 < i < stack.len() implies edge(
            dd,
            stack[i - 1],
            #[trigger] stack[i],
        ) by {
            assert(edge(dd, s1[i - 1], s1[i]));
        }
    }
    assert(settled(dd, Set::empty(), r2)) by {
        assert forall|p: int, c: int|
            0 <= p < r2.len() && dd.is_nonterminal(r2[p]) && 0 <= c < dd.children(
                r2[p],
            ).len() implies before(dd, Set::empty(), r2, p, c) by {
            if p < result.len() {
                assert(before(dd, Set::empty(), result, p, c));
                let q = choose|q: int|
                    0 <= q < p && #[trigger] result[q] == dd.children(result[p])[c];
                assert(r2[q] == dd.children(r2[p])[c]);
            } else {
                let ch = dd.children(x)[c];
                assert(check.contains_key(ch) && check[ch] == CheckedState::Persistent);
                let q = choose|q: int| 0 <= q < result.len() && result[q] == ch;
                assert(r2[q] == ch);
            }
        }
    }
}

/// One more child is marked, and the marks of the others were kept.
proof fn lemma_child_marked(
    before: Map<NodeId, CheckedState>,
    after: Map<NodeId, CheckedState>,
    children: Seq<NodeId>,
    i: int,
)
    requires
        children_marked(before, children, i),
        memo_kept(before, after),
        0 <= i < children.len(),
        after.contains_key(children[i]),
        after[children[i]] == CheckedState::Persistent,
    ensures
        children_marked(after, children, i + 1),
{
    reveal(memo_kept);
}

/// Walks the diagram below `x` depth first and appends to `result` each
/// node that `check` does not hold yet, after the nodes below it. While
/// the walk is below a node, the node is marked `Temporary`; where the
/// walk comes to such a node again, it has gone round a cycle, and fails.
fn visit<L: Leaf>(
    dd: &NodeTable<L>,
    x: NodeId,
    check: &mut HashMap<NodeId, CheckedState>,
    result: &mut Vec<NodeId>,
    Ghost(stack): Ghost<Seq<NodeId>>,
) -> (r: Result<(), Error>)
    requires
        linked(dd@),
        dd@.valid(x),
        marks_ok(dd@, old(check)@, old(result)@, stack),
        stack.len() > 0 ==> edge(dd@, stack.last(), x),
    ensures
        memo_kept(old(check)@, final(check)@),
        match r {
            Ok(_) => {
                &&& marks_ok(dd@, final(check)@, final(result)@, stack)
                &&& final(check)@.contains_key(x)
                &&& final(check)@[x] == CheckedState::Persistent
                &&& (!old(check)@.contains_key(x) ==> ends_with(final(result)@, x))
                &&& walk_done(
                    dd@,
                    x,
                    old(check)@.dom(),
                    old(result)@,
                    final(check)@.dom(),
                    final(result)@,
                )
            },
            Err(e) => e == Error::CyclicDiagram && cycle_after(dd@, stack.push(x)),
        },
    decreases dd@.nodes.len() - stack.len(),
{
    broadcast use vstd::std_specs::hash::group_hash_axioms;

    let ghost held = check@;
    let ghost seen = check@.dom();
    let ghost before = result@;
    proof {
        lemma_memo_kept_same(held);
    }
    match check.get(&x) {
        Some(CheckedState::Temporary) => {
            proof {
                lemma_cycle_found(dd@, stack, x);
            }
            return Err(Error::CyclicDiagram);
        },
        Some(CheckedState::Persistent) => {
            proof {
                assert(dfs(dd@, x, seen) =~= Seq::<NodeId>::empty());
                assert(result@ + dfs(dd@, x, seen) =~= result@);
                assert(seen.union(dfs(dd@, x, seen).to_set()) =~= seen);
            }
            return Ok(());
        },
        None => {},
    }
    proof {
        lemma_enter(dd@, held, before, stack, x);
        lemma_memo_kept_entry(held, held, x, CheckedState::Temporary);
    }
    check.insert(x, CheckedState::Temporary);
    let ghost below = stack.push(x);
    let ghost seen0 = seen.insert(x);
    let ghost mut acc: Seq<NodeId> = Seq::empty();
    match dd.get_node(x).unwrap() {
        Node::NonTerminal { header, children } => {
            let mut i: usize = 0;
            proof {
                assert(dd@.is_nonterminal(x));
                assert(dd@.children(x) == children@);
                assert(result@ =~= before + acc);
                assert(check@.dom() =~= seen0.union(acc.to_set()));
                assert(acc + dfs_from(dd@, x, 0, seen0) =~= dfs_from(dd@, x, 0, seen0));
            }
            while i < children.len()
                invariant
                    i <= children.len(),
                    linked(dd@),
                    dd@.valid(x),
                    dd@.is_nonterminal(x),
                    dd@.children(x) == children@,
                    below == stack.push(x),
                    stack.len() < dd@.nodes.len(),
                    marks_ok(dd@, check@, result@, below),
                    held == old(check)@,
                    memo_kept(held, check@),
                    children_marked(check@, children@, i as int),
                    seen0 == seen.insert(x),
                    seen == held.dom(),
                    !seen.contains(x),
                    dd@.wf() ==> result@ == before + acc,
                    dd@.wf() ==> check@.dom() == seen0.union(acc.to_set()),
                    dd@.wf() ==> dfs_from(dd@, x, 0, seen0) == acc + dfs_from(
                        dd@,
                        x,
                        i as nat,
                        check@.dom(),
                    ),
                decreases children.len() - i,
            {
                let c = children[i];
                let ghost dom_i = check@.dom();
                let ghost check_i = check@;
                proof {
                    assert(dd@.valid(dd@.children(x)[i as int]));
                    assert(children@[i as int] == c);
                    assert(edge(dd@, x, c));
                    assert(below.last() == x);
                }
                match visit(dd, c, check, result, Ghost(below)) {
                    Ok(_) => {},
                    Err(e) => {
                        proof {
                            lemma_cycle_after_shorter(dd@, below, c);
                            lemma_memo_kept_twice(held, check_i, check@);
                        }
                        return Err(e);
                    },
                }
                proof {
                    lemma_memo_kept_twice(held, check_i, check@);
                    lemma_child_marked(check_i, check@, children@, i as int);
                    if dd@.wf() {
                        assert(dd@.node_descends(x));
                        assert(dd@.rank(c) < dd@.rank(x));
                        let first = dfs(dd@, c, dom_i);
                        let rest = dfs_from(dd@, x, (i + 1) as nat, dom_i.union(first.to_set()));
                        assert(dfs_from(dd@, x, i as nat, dom_i) == first + rest);
                        assert(acc + (first + rest) =~= (acc + first) + rest);
                        assert(before + acc + first =~= before + (acc + first));
                        lemma_set_of_concat(acc, first);
                        assert(seen0.union(acc.to_set()).union(first.to_set()) =~= seen0.union(
                            (acc + first).to_set(),
                        ));
                        acc = acc + first;
                    }
                }
                i = i + 1;
            }
            proof {
                if dd@.wf() {
                    assert(dfs_from(dd@, x, i as nat, check@.dom()) =~= Seq::<NodeId>::empty());
                    assert(acc + Seq::<NodeId>::empty() =~= acc);
                }
            }
        },
        _ => {
            proof {
                assert(result@ =~= before + acc);
                assert(check@.dom() =~= seen0.union(acc.to_set()));
            }
        },
    }
    let ghost check_m = check@;
    proof {
        lemma_leave(dd@, check_m, result@, stack, x);
        lemma_memo_kept_entry(held, check_m, x, CheckedState::Persistent);
    }
    check.insert(x, CheckedState::Persistent);
    result.push(x);
    proof {
        if dd@.wf() {
            let d = dfs(dd@, x, seen);
            assert(d =~= acc.push(x));
            assert(result@ =~= before + d);
            lemma_set_of_concat(acc, seq![x]);
            assert(acc.push(x) =~= acc + seq![x]);
            assert(seq![x].to_set() =~= Set::<NodeId>::empty().insert(x)) by {
                assert(seq![x][0] == x);
            }
            assert(check@.dom() =~= seen.union(d.to_set()));
        }
    }
    Ok(())
}

/// The nodes of `v` in the opposite order.
fn reversed(v: &Vec<NodeId>) -> (r: Vec<NodeId>)
    ensures
        r@ == v@.reverse(),
{
    let mut r: Vec<NodeId> = Vec::new();
    let mut i: usize = v.len();
    while i > 0
        invariant
            i <= v.len(),
            r@.len() == v.len() - i,
            forall|j: int| 0 <= j < r@.len() ==> r@[j] == v@[v.len() - 1 - j],
        decreases i,
    {
        i = i - 1;
        r.push(v[i]);
    }
    assert(r@ =~= v@.reverse());
    r
}

/// The error with which the topological sort from `f` fails.
pub open spec fn sort_refusal<L>(dd: TableView<L>, f: NodeId) -> Error {
    if dd.valid(f) {
        Error::CyclicDiagram
    } else {
        Error::MissingNode
    }
}

/// The nodes that can be reached from `f`, each once and each before its
/// children: the order in which a depth-first walk from `f` leaves the
/// nodes, reversed. Fails with `MissingNode` for a node that the table
/// does not hold, and with `CyclicDiagram` where a cycle can be reached
/// from `f`, which a well formed table excludes.
pub fn topological_sort<L: Leaf>(dd: &NodeTable<L>, f: NodeId) -> (r: Result<Vec<NodeId>, Error>)
    requires
        linked(dd@),
    ensures
        dd@.wf() ==> !cyclic_from(dd@, f),
        match r {
            Ok(order) => {
                &&& dd@.valid(f)
                &&& !cyclic_from(dd@, f)
                &&& is_topological(dd@, f, order@)
                &&& (dd@.wf() ==> order@ == dfs(dd@, f, Set::empty()).reverse())
            },
            Err(e) => e == sort_refusal(dd@, f) && (!dd@.valid(f) || cyclic_from(dd@, f)),
        },
{
    proof {
        if dd@.wf() {
            lemma_wf_acyclic(dd@, f);
        }
    }
    if dd.get_node(f).is_none() {
        return Err(Error::MissingNode);
    }
    let mut result: Vec<NodeId> = Vec::new();
    let mut check: HashMap<NodeId, CheckedState> = HashMap::new();
    assert(check@.dom() =~= Set::<NodeId>::empty());
    match visit(dd, f, &mut check, &mut result, Ghost(Seq::empty())) {
        Ok(_) => {},
        Err(e) => {
            proof {
                lemma_cycle_after_root(dd@, f);
            }
            return Err(e);
        },
    }
    proof {
        assert(result@.contains(f));
        lemma_sorted_acyclic(dd@, f, result@);
        assert forall|i: int| 0 <= i < result@.len() implies dd@.valid(#[trigger] result@[i]) by {
            assert(check@.contains_key(result@[i]));
        }
        lemma_reverse_topological(dd@, f, result@);
        if dd@.wf() {
            assert(result@ =~= dfs(dd@, f, Set::empty()));
        }
    }
    Ok(reversed(&result))
}

/// Where the single pass of the sensitivity analysis stands: the weight
/// with which each node is reached from the root, as far as it is known,
/// and the gradient gathered so far, label by label.
pub struct Sensitivity<T> {
    pub weight: Map<NodeId, T>,
    pub grad: Seq<(Seq<char>, T)>,
}

/// `w` with `delta` added to the weight of `id`, which starts from
/// `delta` where `w` holds none.
pub open spec fn add_weight<T: ProbValue>(w: Map<NodeId, T>, id: NodeId, delta: T) -> Map<
    NodeId,
    T,
> {
    if w.contains_key(id) {
        w.insert(id, w[id].add_spec(delta))
    } else {
        w.insert(id, delta)
    }
}

/// The pass takes node `f`: a non-terminal hands its weight down, times
/// `1 - p` to its low child and times `p` to its high child, and adds its
/// weight times `prob(high) - prob(low)` to the gradient of its label.
pub open spec fn bmeas_step<T: ProbValue>(
    dd: TableView<bool>,
    pv: Seq<(Seq<char>, T)>,
    ss: Seq<bool>,
    st: Sensitivity<T>,
    f: NodeId,
) -> Sensitivity<T> {
    if dd.is_nonterminal(f) && dd.children(f).len() == 2 {
        let w = if st.weight.contains_key(f) {
            st.weight[f]
        } else {
            zero_spec::<T>()
        };
        let p = label_prob(dd, pv, f);
        let barp = one_spec::<T>().sub_spec(p);
        let c0 = dd.children(f)[0];
        let c1 = dd.children(f)[1];
        let w0 = add_weight(st.weight, c0, w.mul_spec(barp));
        let w1 = add_weight(w0, c1, w.mul_spec(p));
        let below_low = prob_spec(dd, pv, ss, c0);
        let below_high = prob_spec(dd, pv, ss, c1);
        Sensitivity {
            weight: w1,
            grad: assoc_add(st.grad, dd.header(f).label, w.mul_spec(below_high.sub_spec(below_low))),
        }
    } else {
        st
    }
}

/// The pass over the nodes of `order`, one after the other, from `init`.
pub open spec fn bmeas_fold<T: ProbValue>(
    dd: TableView<bool>,
    pv: Seq<(Seq<char>, T)>,
    ss: Seq<bool>,
    order: Seq<NodeId>,
    init: Sensitivity<T>,
) -> Sensitivity<T>
    decreases order.len(),
{
    if order.len() == 0 {
        init
    } else {
        bmeas_step(dd, pv, ss, bmeas_fold(dd, pv, ss, order.drop_last(), init), order.last())
    }
}

/// The derivative of the probability of `node` by the probability of each
/// variable below it, label by label in the order in which the pass meets
/// them: the pass starts with weight 1 at `node` and takes the nodes below
/// it in topological order.
pub open spec fn bmeas_spec<T: ProbValue>(
    dd: TableView<bool>,
    ss: Seq<bool>,
    node: NodeId,
    pv: Seq<(Seq<char>, T)>,
) -> Seq<(Seq<char>, T)> {
    bmeas_fold(dd, pv, ss, dfs(dd, node, Set::empty()).reverse(), bmeas_init::<T>(node)).grad
}

/// Adding `delta` to the weight of `id` is defined: there is no weight
/// yet, or the sum can be taken.
pub open spec fn add_weight_defined<T: ProbValue>(w: Map<NodeId, T>, id: NodeId, delta: T) -> bool {
    w.contains_key(id) ==> w[id].add_req(delta)
}

/// The step of the pass at node `f` can be computed: each operation of
/// [`bmeas_step`] is defined on what it is given, and so are the
/// probabilities of the children.
pub open spec fn bmeas_step_defined<T: ProbValue>(
    dd: TableView<bool>,
    pv: Seq<(Seq<char>, T)>,
    ss: Seq<bool>,
    st: Sensitivity<T>,
    f: NodeId,
) -> bool {
    dd.is_nonterminal(f) && dd.children(f).len() == 2 ==> {
        let w = if st.weight.contains_key(f) {
            st.weight[f]
        } else {
            zero_spec::<T>()
        };
        let p = label_prob(dd, pv, f);
        let barp = one_spec::<T>().sub_spec(p);
        let c0 = dd.children(f)[0];
        let c1 = dd.children(f)[1];
        let w0 = add_weight(st.weight, c0, w.mul_spec(barp));
        let below_low = prob_spec(dd, pv, ss, c0);
        let below_high = prob_spec(dd, pv, ss, c1);
        &&& one_spec::<T>().sub_req(p)
        &&& w.mul_req(barp)
        &&& add_weight_defined(st.weight, c0, w.mul_spec(barp))
        &&& w.mul_req(p)
        &&& add_weight_defined(w0, c1, w.mul_spec(p))
        &&& prob_defined(dd, pv, ss, c0)
        &&& prob_defined(dd, pv, ss, c1)
        &&& below_high.sub_req(below_low)
        &&& w.mul_req(below_high.sub_spec(below_low))
        &&& assoc_add_defined(
            st.grad,
            dd.header(f).label,
            w.mul_spec(below_high.sub_spec(below_low)),
        )
    }
}

/// Every step of the pass over `order` can be computed.
pub open spec fn bmeas_fold_defined<T: ProbValue>(
    dd: TableView<bool>,
    pv: Seq<(Seq<char>, T)>,
    ss: Seq<bool>,
    order: Seq<NodeId>,
    init: Sensitivity<T>,
) -> bool
    decreases order.len(),
{
    order.len() == 0 || (bmeas_fold_defined(dd, pv, ss, order.drop_last(), init)
        && bmeas_step_defined(
        dd,
        pv,
        ss,
        bmeas_fold(dd, pv, ss, order.drop_last(), init),
        order.last(),
    ))
}

/// The state in which the pass starts: weight 1 at `node`.
pub open spec fn bmeas_init<T: ProbValue>(node: NodeId) -> Sensitivity<T> {
    Sensitivity { weight: Map::empty().insert(node, one_spec::<T>()), grad: Seq::empty() }
}

/// The sensitivities of `node` can be computed: its probability can, and
/// so can every step of the pass.
pub open spec fn bmeas_defined<T: ProbValue>(
    dd: TableView<bool>,
    ss: Seq<bool>,
    node: NodeId,
    pv: Seq<(Seq<char>, T)>,
) -> bool {
    &&& prob_defined(dd, pv, ss, node)
    &&& bmeas_fold_defined(
        dd,
        pv,
        ss,
        dfs(dd, node, Set::empty()).reverse(),
        bmeas_init::<T>(node),
    )
}

/// What can be computed for an order can be computed for each beginning
/// of it.
proof fn lemma_fold_defined_prefix<T: ProbValue>(
    dd: TableView<bool>,
    pv: Seq<(Seq<char>, T)>,
    ss: Seq<bool>,
    order: Seq<NodeId>,
    init: Sensitivity<T>,
    n: int,
)
    requires
        0 <= n <= order.len(),
        bmeas_fold_defined(dd, pv, ss, order, init),
    ensures
        bmeas_fold_defined(dd, pv, ss, order.subrange(0, n), init),
    decreases order.len() - n,
{
    if n == order.len() {
        assert(order.subrange(0, n) =~= order);
    } else {
        assert(order.drop_last().subrange(0, n) =~= order.subrange(0, n));
        lemma_fold_defined_prefix(dd, pv, ss, order.drop_last(), init, n);
    }
}

/// Where the arithmetic of `T` is defined on all values, every pass can
/// be computed.
pub proof fn lemma_total_bmeas_defined<T: ProbValue>(
    dd: TableView<bool>,
    ss: Seq<bool>,
    node: NodeId,
    pv: Seq<(Seq<char>, T)>,
)
    requires
        total_arith::<T>(),
    ensures
        bmeas_defined(dd, ss, node, pv),
{
    lemma_total_prob_defined(dd, pv, ss, node);
    lemma_total_fold_defined(
        dd,
        pv,
        ss,
        dfs(dd, node, Set::empty()).reverse(),
        bmeas_init::<T>(node),
    );
}

proof fn lemma_total_fold_defined<T: ProbValue>(
    dd: TableView<bool>,
    pv: Seq<(Seq<char>, T)>,
    ss: Seq<bool>,
    order: Seq<NodeId>,
    init: Sensitivity<T>,
)
    requires
        total_arith::<T>(),
    ensures
        bmeas_fold_defined(dd, pv, ss, order, init),
    decreases order.len(),
{
    if order.len() > 0 {
        lemma_total_fold_defined(dd, pv, ss, order.drop_last(), init);
        let f = order.last();
        if dd.is_nonterminal(f) && dd.children(f).len() == 2 {
            lemma_total_prob_defined(dd, pv, ss, dd.children(f)[0]);
            lemma_total_prob_defined(dd, pv, ss, dd.children(f)[1]);
        }
    }
}

/// Adds `delta` to the weight of `id`.
fn add_to_weight<T: ProbValue>(w: &mut HashMap<NodeId, T>, id: NodeId, delta: T)
    requires
        obeys_arith::<T>(),
        add_weight_defined(old(w)@, id, delta),
    ensures
        final(w)@ == add_weight(old(w)@, id, delta),
{
    broadcast use vstd::std_specs::hash::group_hash_axioms;

    let next = match w.get(&id) {
        Some(val) => *val + delta,
        None => delta,
    };
    w.insert(id, next);
}

/// The sensitivity of the probability of `node` to each variable: for
/// each label below `node` the derivative of `prob` by the probability of
/// that variable, found in one pass over the nodes in topological order.
/// Fails as `prob` does.
pub fn bmeas<T: ProbValue>(
    dd: &NodeTable<bool>,
    ss: &[bool],
    node: NodeId,
    env: &[(String, T)],
) -> (r: Result<Vec<(String, T)>, Error>)
    requires
        dd@.wf(),
        dd@.binary(),
        obeys_arith::<T>(),
        bmeas_defined(dd@, ss@, node, pairs_view(env@)),
    ensures
        match r {
            Ok(g) => dd@.undet_free(node) && pairs_view(g@) == bmeas_spec(
                dd@,
                ss@,
                node,
                pairs_view(env@),
            ),
            Err(e) => !dd@.undet_free(node) && e == refusal(dd@, node),
        },
{
    broadcast use vstd::std_specs::hash::group_hash_axioms;

    let mut bddcache: HashMap<NodeId, T> = HashMap::new();
    match prob(dd, node, env, ss, &mut bddcache) {
        Ok(_) => {},
        Err(e) => {
            return Err(e);
        },
    }
    proof {
        lemma_wf_linked(dd@);
    }
    let sorted_nodes = match topological_sort(dd, node) {
        Ok(v) => v,
        Err(e) => {
            return Err(e);
        },
    };
    let mut gradcache: HashMap<NodeId, T> = HashMap::new();
    let mut gradevent: Vec<(String, T)> = Vec::new();
    gradcache.insert(node, T::from(1i8));
    let ghost pv = pairs_view(env@);
    let ghost init = bmeas_init::<T>(node);
    proof {
        lemma_dfs_undet_free(dd@, node, Set::empty());
        assert(sorted_nodes@.subrange(0, 0) =~= Seq::<NodeId>::empty());
        assert(pairs_view(gradevent@) =~= init.grad);
        assert(gradcache@ =~= init.weight);
        let d = dfs(dd@, node, Set::empty());
        assert forall|j: int| 0 <= j < sorted_nodes@.len() implies dd@.undet_free(
            #[trigger] sorted_nodes@[j],
        ) by {
            assert(sorted_nodes@[j] == d[d.len() - 1 - j]);
        }
    }
    let mut i: usize = 0;
    while i < sorted_nodes.len()
        invariant
            i <= sorted_nodes.len(),
            dd@.wf(),
            dd@.binary(),
            obeys_arith::<T>(),
            pv == pairs_view(env@),
            bmeas_fold_defined(dd@, pv, ss@, sorted_nodes@, init),
            prob_memo_ok(dd@, pv, ss@, bddcache@),
            forall|j: int| 0 <= j < sorted_nodes@.len() ==> dd@.undet_free(#[trigger] sorted_nodes@[j]),
            (Sensitivity { weight: gradcache@, grad: pairs_view(gradevent@) }) == bmeas_fold(
                dd@,
                pv,
                ss@,
                sorted_nodes@.subrange(0, i as int),
                init,
            ),
        decreases sorted_nodes.len() - i,
    {
        let f = sorted_nodes[i];
        proof {
            let upto = sorted_nodes@.subrange(0, i + 1);
            assert(upto.drop_last() =~= sorted_nodes@.subrange(0, i as int));
            assert(upto.last() == f);
            assert(dd@.undet_free(f));
            lemma_fold_defined_prefix(dd@, pv, ss@, sorted_nodes@, init, i + 1);
            assert(bmeas_step_defined(
                dd@,
                pv,
                ss@,
                bmeas_fold(dd@, pv, ss@, sorted_nodes@.subrange(0, i as int), init),
                f,
            ));
        }
        match dd.get_node(f).unwrap() {
            Node::NonTerminal { header, children } => {
                proof {
                    assert(dd@.node_linked(f));
                    assert(dd@.is_nonterminal(f));
                    assert(dd@.children(f) == children@);
                    assert(dd@.valid(children@[0]) && dd@.valid(children@[1]));
                    lemma_undet_free_binary(dd@, f);
                }
                let w = match gradcache.get(&f) {
                    Some(val) => *val,
                    None => T::from(0i8),
                };
                let x = dd.label(f).unwrap();
                let p = match lookup(env, x) {
                    Some(v) => v,
                    None => T::from(0i8),
                };
                let barp = T::from(1i8) - p;
                add_to_weight(&mut gradcache, children[0], w * barp);
                add_to_weight(&mut gradcache, children[1], w * p);
                let below_low = match prob(dd, children[0], env, ss, &mut bddcache) {
                    Ok(v) => v,
                    Err(e) => {
                        return Err(e);
                    },
                };
                let below_high = match prob(dd, children[1], env, ss, &mut bddcache) {
                    Ok(v) => v,
                    Err(e) => {
                        return Err(e);
                    },
                };
                accumulate(&mut gradevent, x, w * (below_high - below_low));
            },
            _ => {},
        }
        i = i + 1;
    }
    assert(sorted_nodes@.subrange(0, sorted_nodes@.len() as int) =~= sorted_nodes@);
    Ok(gradevent)
}

/// `x` lies between 0 and 1 in the order `le`.
pub open spec fn in_unit<T: ProbValue>(le: spec_fn(T, T) -> bool, x: T) -> bool {
    le(zero_spec::<T>(), x) && le(x, one_spec::<T>())
}

/// In the order `le` the numbers between 0 and 1 hold 0 and 1 and the
/// weighted mean of any two of them, as they do where the arithmetic of
/// `T` is exact.
pub open spec fn keeps_unit<T: ProbValue>(le: spec_fn(T, T) -> bool) -> bool {
    &&& in_unit(le, zero_spec::<T>())
    &&& in_unit(le, one_spec::<T>())
    &&& forall|p: T, a: T, b: T|
        in_unit(le, p) && in_unit(le, a) && in_unit(le, b) ==> in_unit(
            le,
            #[trigger] mix_spec(p, a, b),
        )
}

proof fn lemma_assoc_get_in_unit<T: ProbValue>(
    pv: Seq<(Seq<char>, T)>,
    key: Seq<char>,
    le: spec_fn(T, T) -> bool,
)
    requires
        forall|i: int| 0 <= i < pv.len() ==> in_unit(le, (#[trigger] pv[i]).1),
    ensures
        match assoc_get(pv, key) {
            Some(p) => in_unit(le, p),
            None => true,
        },
    decreases pv.len(),
{
    if pv.len() > 0 {
        assert(in_unit(le, pv[0].1));
        if pv[0].0 != key {
            let rest = pv.drop_first();
            assert forall|i: int| 0 <= i < rest.len() implies in_unit(le, (#[trigger] rest[i]).1) by {
                assert(rest[i] == pv[i + 1]);
            }
            lemma_assoc_get_in_unit(rest, key, le);
        }
    }
}

/// A probability lies between 0 and 1: where every probability that `pv`
/// gives lies between 0 and 1, in an order in which such numbers keep
/// their weighted means among them, so does the probability of every
/// node.
pub proof fn lemma_prob_bounds<T: ProbValue>(
    dd: TableView<bool>,
    pv: Seq<(Seq<char>, T)>,
    ss: Seq<bool>,
    id: NodeId,
    le: spec_fn(T, T) -> bool,
)
    requires
        keeps_unit(le),
        forall|i: int| 0 <= i < pv.len() ==> in_unit(le, (#[trigger] pv[i]).1),
    ensures
        in_unit(le, prob_spec(dd, pv, ss, id)),
    decreases dd.rank(id),
{
    if dd.valid(id) && dd.nodes[id as int] is NonTerminal {
        let children = dd.children(id);
        if children.len() == 2 && dd.rank(children[0]) < dd.rank(id) && dd.rank(children[1])
            < dd.rank(id) {
            lemma_prob_bounds(dd, pv, ss, children[0], le);
            lemma_prob_bounds(dd, pv, ss, children[1], le);
            lemma_assoc_get_in_unit(pv, dd.header(id).label, le);
            assert(in_unit(le, label_prob(dd, pv, id)));
        }
    }
}

/// `rep(t, c, k)` reads "`t` is `c` parts of `2^k`". The reading fits a
/// number `half` that stands for one half: 0 and 1 are no part and the
/// one part of one; a number of `c` parts of `2^k` is one of `2c` parts of
/// `2^(k+1)`; and the mean of two numbers of parts of `2^k`, with the
/// weight `half`, is their sum in parts of `2^(k+1)`. All of this holds
/// of `t == c / 2^k` where the arithmetic of `T` is exact.
pub open spec fn reads_halves<T: ProbValue>(half: T, rep: spec_fn(T, nat, nat) -> bool) -> bool {
    &&& rep(zero_spec::<T>(), 0, 0)
    &&& rep(one_spec::<T>(), 1, 0)
    &&& forall|t: T, c: nat, k: nat| #[trigger] refines(rep, t, c, k)
    &&& forall|a: T, b: T, ca: nat, cb: nat, k: nat| #[trigger] joins(half, rep, a, b, ca, cb, k)
}

/// A number of `c` parts of `2^k` is one of `2c` parts of `2^(k+1)`.
pub open spec fn refines<T: ProbValue>(
    rep: spec_fn(T, nat, nat) -> bool,
    t: T,
    c: nat,
    k: nat,
) -> bool {
    rep(t, c, k) ==> rep(t, 2 * c, k + 1)
}

/// The mean of `ca` and of `cb` parts of `2^k` is `ca + cb` parts of
/// `2^(k+1)`.
pub open spec fn joins<T: ProbValue>(
    half: T,
    rep: spec_fn(T, nat, nat) -> bool,
    a: T,
    b: T,
    ca: nat,
    cb: nat,
    k: nat,
) -> bool {
    rep(a, ca, k) && rep(b, cb, k) ==> rep(mix_spec(half, a, b), ca + cb, k + 1)
}

proof fn lemma_rep_scales<T: ProbValue>(
    half: T,
    rep: spec_fn(T, nat, nat) -> bool,
    t: T,
    c: nat,
    k: nat,
    d: nat,
)
    requires
        reads_halves(half, rep),
        rep(t, c, k),
    ensures
        rep(t, power_spec(2, d) * c, k + d),
    decreases d,
{
    if d == 0 {
        assert(power_spec(2, 0) == 1);
        assert(power_spec(2, 0) * c == c) by (nonlinear_arith)
            requires
                power_spec(2, 0) == 1,
        ;
    } else {
        lemma_rep_scales(half, rep, t, c, k, (d - 1) as nat);
        let e = power_spec(2, (d - 1) as nat) * c;
        assert(rep(t, e, (k + d - 1) as nat));
        assert(2 * e == power_spec(2, d) * c) by (nonlinear_arith)
            requires
                e == power_spec(2, (d - 1) as nat) * c,
                power_spec(2, d) == 2 * power_spec(2, (d - 1) as nat),
        ;
        assert(refines(rep, t, e, (k + d - 1) as nat));
        assert(rep(t, 2 * e, (k + d - 1) as nat + 1));
    }
}

/// With even odds the probability is the share of the assignments that
/// are counted: where `pv` gives one half for every variable, the
/// probability of a node is as many parts of two to the number of its
/// variables as `bdd_count` counts.
pub proof fn lemma_even_odds<T: ProbValue>(
    dd: TableView<bool>,
    pv: Seq<(Seq<char>, T)>,
    ss: Seq<bool>,
    id: NodeId,
    half: T,
    rep: spec_fn(T, nat, nat) -> bool,
)
    requires
        dd.wf(),
        reads_halves(half, rep),
        forall|x: NodeId| #[trigger] dd.is_nonterminal(x) ==> label_prob(dd, pv, x) == half,
    ensures
        rep(prob_spec(dd, pv, ss, id), bdd_count_spec(dd, ss, id), dd.rank(id)),
    decreases dd.rank(id),
{
    if dd.valid(id) && dd.nodes[id as int] is NonTerminal {
        let children = dd.children(id);
        assert(dd.is_nonterminal(id));
        if children.len() == 2 && dd.rank(children[0]) < dd.rank(id) && dd.rank(children[1])
            < dd.rank(id) {
            let lo = children[0];
            let hi = children[1];
            let k = (dd.rank(id) - 1) as nat;
            lemma_even_odds(dd, pv, ss, lo, half, rep);
            lemma_even_odds(dd, pv, ss, hi, half, rep);
            lemma_rep_scales(
                half,
                rep,
                prob_spec(dd, pv, ss, lo),
                bdd_count_spec(dd, ss, lo),
                dd.rank(lo),
                (k - dd.rank(lo)) as nat,
            );
            lemma_rep_scales(
                half,
                rep,
                prob_spec(dd, pv, ss, hi),
                bdd_count_spec(dd, ss, hi),
                dd.rank(hi),
                (k - dd.rank(hi)) as nat,
            );
            let ca = skip_weight(dd, id, lo) * bdd_count_spec(dd, ss, lo);
            let cb = skip_weight(dd, id, hi) * bdd_count_spec(dd, ss, hi);
            assert(rep(prob_spec(dd, pv, ss, lo), ca, k));
            assert(rep(prob_spec(dd, pv, ss, hi), cb, k));
            assert(joins(half, rep, prob_spec(dd, pv, ss, lo), prob_spec(dd, pv, ss, hi), ca, cb, k));
            assert(rep(
                mix_spec(half, prob_spec(dd, pv, ss, lo), prob_spec(dd, pv, ss, hi)),
                ca + cb,
                k + 1,
            ));
        } else {
            lemma_rep_scales(half, rep, zero_spec::<T>(), 0, 0, dd.rank(id));
            assert(power_spec(2, dd.rank(id)) * 0 == 0);
        }
    }
}

} // verus!
