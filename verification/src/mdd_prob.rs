use crate::bdd_prob::{add_weight, add_weight_defined, refusal, topological_sort};
use crate::traverse::{
    dfs, lemma_dfs_undet_free, lemma_seen_from_end, lemma_seen_from_step, lemma_walk_leaf,
    lemma_walk_node, lemma_wf_linked, seen_after, seen_from,
};
use crate::common::{
    contains, lemma_memo_kept_entry, lemma_memo_kept_same, lemma_memo_kept_twice, memo_kept, Error,
    Leaf, NodeId,
};
use crate::mtmdd2::{bool_targets, to_bool_targets, MDDValue, MtMdd2Manager};
use crate::numeric::{assoc_get, obeys_arith, one_spec, total_arith, zero_spec, ProbValue};
use crate::table::{Node, NodeTable, NodeView, TableView};
use std::collections::HashMap;
use vstd::prelude::*;
use vstd::std_specs::ops::{AddSpec, MulSpec};

verus! {

/// A list of labelled rows of values as a mathematical value.
pub open spec fn rows_view<T>(pv: Seq<(String, Vec<T>)>) -> Seq<(Seq<char>, Seq<T>)> {
    pv.map_values(|p: (String, Vec<T>)| (p.0@, p.1@))
}

/// The probability that `pv` gives for the `i`-th value of the variable
/// of node `id`: 0 where `pv` has no row for the label, or the row is
/// too short.
pub open spec fn value_prob<L, T: ProbValue>(
    dd: TableView<L>,
    pv: Seq<(Seq<char>, Seq<T>)>,
    id: NodeId,
    i: int,
) -> T {
    match assoc_get(pv, dd.header(id).label) {
        Some(row) => if 0 <= i < row.len() {
            row[i]
        } else {
            zero_spec::<T>()
        },
        None => zero_spec::<T>(),
    }
}

/// The probability that the diagram, entered at `id`, ends in a terminal
/// of `ss`, where `pv` gives for each label the probabilities of the
/// values of its variable: at a node the sum over its children of the
/// probability of the value times the probability of the child, added up
/// from the first child on, starting from 0.
pub open spec fn mdd_prob_spec<L, T: ProbValue>(
    dd: TableView<L>,
    pv: Seq<(Seq<char>, Seq<T>)>,
    ss: Seq<L>,
    id: NodeId,
) -> T
    decreases dd.rank(id), dd.children(id).len() + 2,
{
    if !dd.valid(id) {
        zero_spec::<T>()
    } else {
        match dd.nodes[id as int] {
            NodeView::Terminal(v) => if ss.contains(v) {
                one_spec::<T>()
            } else {
                zero_spec::<T>()
            },
            NodeView::Undet => zero_spec::<T>(),
            NodeView::NonTerminal { header, children } => mdd_prob_sum(
                dd,
                pv,
                ss,
                id,
                children.len(),
            ),
        }
    }
}

/// The sum of `mdd_prob_spec` over the first `n` children of `id`.
pub open spec fn mdd_prob_sum<L, T: ProbValue>(
    dd: TableView<L>,
    pv: Seq<(Seq<char>, Seq<T>)>,
    ss: Seq<L>,
    id: NodeId,
    n: nat,
) -> T
    decreases dd.rank(id), n + 1,
{
    if n == 0 || n > dd.children(id).len() {
        zero_spec::<T>()
    } else {
        let c = dd.children(id)[n - 1];
        let below = if dd.rank(c) < dd.rank(id) {
            mdd_prob_spec(dd, pv, ss, c)
        } else {
            zero_spec::<T>()
        };
        mdd_prob_sum(dd, pv, ss, id, (n - 1) as nat).add_spec(
            value_prob(dd, pv, id, n - 1).mul_spec(below),
        )
    }
}

/// The probability of `id` can be computed: at every node below, each
/// product and each sum of [`mdd_prob_sum`] is defined on what it is
/// given. In a number type with bounds this says that no operation leaves
/// the bounds.
pub open spec fn mdd_prob_defined<L, T: ProbValue>(
    dd: TableView<L>,
    pv: Seq<(Seq<char>, Seq<T>)>,
    ss: Seq<L>,
    id: NodeId,
) -> bool
    decreases dd.rank(id), dd.children(id).len() + 2,
{
    if !dd.valid(id) {
        true
    } else {
        match dd.nodes[id as int] {
            NodeView::NonTerminal { header, children } => mdd_prob_sum_defined(
                dd,
                pv,
                ss,
                id,
                children.len(),
            ),
            _ => true,
        }
    }
}

/// The sum over the first `n` children of `id` can be computed.
pub open spec fn mdd_prob_sum_defined<L, T: ProbValue>(
    dd: TableView<L>,
    pv: Seq<(Seq<char>, Seq<T>)>,
    ss: Seq<L>,
    id: NodeId,
    n: nat,
) -> bool
    decreases dd.rank(id), n + 1,
{
    if n == 0 || n > dd.children(id).len() {
        true
    } else {
        let c = dd.children(id)[n - 1];
        let below = if dd.rank(c) < dd.rank(id) {
            mdd_prob_spec(dd, pv, ss, c)
        } else {
            zero_spec::<T>()
        };
        let p = value_prob(dd, pv, id, n - 1);
        &&& mdd_prob_sum_defined(dd, pv, ss, id, (n - 1) as nat)
        &&& (dd.rank(c) < dd.rank(id) ==> mdd_prob_defined(dd, pv, ss, c))
        &&& p.mul_req(below)
        &&& mdd_prob_sum(dd, pv, ss, id, (n - 1) as nat).add_req(p.mul_spec(below))
    }
}

/// Where the arithmetic of `T` is defined on all values, every
/// probability can be computed.
pub proof fn lemma_total_mdd_prob_defined<L, T: ProbValue>(
    dd: TableView<L>,
    pv: Seq<(Seq<char>, Seq<T>)>,
    ss: Seq<L>,
    id: NodeId,
)
    requires
        total_arith::<T>(),
    ensures
        mdd_prob_defined(dd, pv, ss, id),
    decreases dd.rank(id), dd.children(id).len() + 2,
{
    if dd.valid(id) && dd.nodes[id as int] is NonTerminal {
        lemma_total_mdd_sum_defined(dd, pv, ss, id, dd.children(id).len());
    }
}

proof fn lemma_total_mdd_sum_defined<L, T: ProbValue>(
    dd: TableView<L>,
    pv: Seq<(Seq<char>, Seq<T>)>,
    ss: Seq<L>,
    id: NodeId,
    n: nat,
)
    requires
        total_arith::<T>(),
    ensures
        mdd_prob_sum_defined(dd, pv, ss, id, n),
    decreases dd.rank(id), n + 1,
{
    if !(n == 0 || n > dd.children(id).len()) {
        let c = dd.children(id)[n - 1];
        lemma_total_mdd_sum_defined(dd, pv, ss, id, (n - 1) as nat);
        if dd.rank(c) < dd.rank(id) {
            lemma_total_mdd_prob_defined(dd, pv, ss, c);
        }
    }
}

/// The sum over the first `n` children can be computed where the sum over
/// more of them can.
proof fn lemma_mdd_sum_defined_prefix<L, T: ProbValue>(
    dd: TableView<L>,
    pv: Seq<(Seq<char>, Seq<T>)>,
    ss: Seq<L>,
    id: NodeId,
    n: nat,
    m: nat,
)
    requires
        n <= m <= dd.children(id).len(),
        mdd_prob_sum_defined(dd, pv, ss, id, m),
    ensures
        mdd_prob_sum_defined(dd, pv, ss, id, n),
    decreases m - n,
{
    if n < m {
        lemma_mdd_sum_defined_prefix(dd, pv, ss, id, n, (m - 1) as nat);
    }
}

/// A memo of the probability: each entry belongs to a node from which no
/// undetermined node can be reached, and is its probability.
pub open spec fn mdd_prob_memo_ok<L, T: ProbValue>(
    dd: TableView<L>,
    pv: Seq<(Seq<char>, Seq<T>)>,
    ss: Seq<L>,
    cache: Map<NodeId, T>,
) -> bool {
    forall|k: NodeId| #[trigger]
        cache.contains_key(k) ==> dd.undet_free(k) && cache[k] == mdd_prob_spec(dd, pv, ss, k)
}

/// A hit in the memo is what a fresh computation gives, down to the last
/// bit.
pub proof fn lemma_mdd_prob_memo_agrees<L, T: ProbValue>(
    dd: TableView<L>,
    pv: Seq<(Seq<char>, Seq<T>)>,
    ss: Seq<L>,
    cache: Map<NodeId, T>,
    other: Map<NodeId, T>,
    id: NodeId,
)
    requires
        mdd_prob_memo_ok(dd, pv, ss, cache),
        mdd_prob_memo_ok(dd, pv, ss, other),
        cache.contains_key(id),
        other.contains_key(id),
    ensures
        cache[id] == other[id],
        cache[id] == mdd_prob_spec(dd, pv, ss, id),
{
}

proof fn lemma_assoc_get_skip_rows<T>(pv: Seq<(Seq<char>, T)>, key: Seq<char>, i: int)
    requires
        0 <= i <= pv.len(),
        forall|j: int| 0 <= j < i ==> (#[trigger] pv[j]).0 != key,
    ensures
        assoc_get(pv, key) == assoc_get(pv.subrange(i, pv.len() as int), key),
    decreases i,
{
    if i == 0 {
        assert(pv.subrange(0, pv.len() as int) =~= pv);
    } else {
        let rest = pv.drop_first();
        assert forall|j: int| 0 <= j < i - 1 implies (#[trigger] rest[j]).0 != key by {
            assert(rest[j] == pv[j + 1]);
        }
        assert(pv[0].0 != key);
        lemma_assoc_get_skip_rows(rest, key, i - 1);
        assert(rest.subrange(i - 1, rest.len() as int) =~= pv.subrange(i, pv.len() as int));
    }
}

/// The row that `pv` holds for `key`: that of the first pair with this
/// label, none where no pair has it.
pub fn lookup_row<'a, T>(pv: &'a [(String, Vec<T>)], key: &String) -> (r: Option<&'a Vec<T>>)
    ensures
        match r {
            Some(row) => assoc_get(rows_view(pv@), key@) == Some(row@),
            None => assoc_get(rows_view(pv@), key@) is None,
        },
{
    let ghost view = rows_view(pv@);
    let mut i: usize = 0;
    while i < pv.len()
        invariant
            i <= pv.len(),
            view == rows_view(pv@),
            forall|j: int| 0 <= j < i ==> (#[trigger] view[j]).0 != key@,
        decreases pv.len() - i,
    {
        if pv[i].0 == *key {
            proof {
                lemma_assoc_get_skip_rows(view, key@, i as int);
                let rest = view.subrange(i as int, view.len() as int);
                assert(rest[0] == view[i as int]);
            }
            return Some(&pv[i].1);
        }
        i = i + 1;
    }
    proof {
        lemma_assoc_get_skip_rows(view, key@, pv.len() as int);
    }
    None
}

/// A node is free of undetermined nodes exactly if all its children are.
pub proof fn lemma_undet_free_children<L>(dd: TableView<L>, id: NodeId)
    requires
        dd.wf(),
        dd.is_nonterminal(id),
    ensures
        dd.undet_free(id) <==> forall|i: int|
            0 <= i < dd.children(id).len() ==> dd.undet_free(#[trigger] dd.children(id)[i]),
{
    assert(dd.node_descends(id));
    let children = dd.children(id);
    if forall|i: int| 0 <= i < children.len() ==> dd.undet_free(#[trigger] children[i]) {
        assert forall|i: int| 0 <= i < children.len() implies dd.rank(#[trigger] children[i])
            < dd.rank(id) && dd.undet_free(children[i]) by {}
    }
}

/// The probability that the diagram of `dd`, entered at `node`, ends in
/// a terminal of `ss`. Fails with `MissingNode` for a node that the table
/// does not hold and with `InvalidDiagram` where an undetermined node can
/// be reached. `cache` is the memo of this diagram, `pv` and `ss`: after
/// success it holds, beside what it held, the probability of each node
/// that the walk from `node` met for the first time.
pub fn prob_in<L: Leaf, T: ProbValue>(
    dd: &NodeTable<L>,
    node: NodeId,
    pv: &[(String, Vec<T>)],
    ss: &[L],
    cache: &mut HashMap<NodeId, T>,
) -> (r: Result<T, Error>)
    requires
        dd@.wf(),
        obeys_arith::<T>(),
        mdd_prob_defined(dd@, rows_view(pv@), ss@, node),
        mdd_prob_memo_ok(dd@, rows_view(pv@), ss@, old(cache)@),
    ensures
        match r {
            Ok(v) => {
                &&& dd@.undet_free(node)
                &&& v == mdd_prob_spec(dd@, rows_view(pv@), ss@, node)
                &&& final(cache)@.dom() == seen_after(dd@, node, old(cache)@.dom())
                &&& final(cache)@.contains_key(node)
                &&& final(cache)@[node] == v
            },
            Err(e) => !dd@.undet_free(node) && e == refusal(dd@, node),
        },
        mdd_prob_memo_ok(dd@, rows_view(pv@), ss@, final(cache)@),
        memo_kept(old(cache)@, final(cache)@),
    decreases dd@.rank(node),
{
    broadcast use vstd::std_specs::hash::group_hash_axioms;

    let ghost held = cache@;
    proof {
        lemma_memo_kept_same(held);
    }
    if let Some(x) = cache.get(&node) {
        proof {
            lemma_walk_leaf(dd@, node, held.dom());
            assert(held.dom().insert(node) =~= held.dom());
        }
        return Ok(*x);
    }
    proof {
        if dd@.valid(node) {
            if dd@.is_nonterminal(node) {
                lemma_walk_node(dd@, node, held.dom());
            } else {
                lemma_walk_leaf(dd@, node, held.dom());
            }
        }
    }
    let result = match dd.get_node(node) {
        None => {
            return Err(Error::MissingNode);
        },
        Some(Node::Terminal(v)) => {
            if contains(ss, v) {
                T::from(1i8)
            } else {
                T::from(0i8)
            }
        },
        Some(Node::Undet) => {
            return Err(Error::InvalidDiagram);
        },
        Some(Node::NonTerminal { header, children }) => {
            proof {
                assert(dd@.node_linked(node));
                assert(dd@.is_nonterminal(node));
                assert(dd@.children(node) == children@);
                lemma_undet_free_children(dd@, node);
            }
            let label = dd.label(node).unwrap();
            let fp = lookup_row(pv, label);
            let mut result = T::from(0i8);
            let mut i: usize = 0;
            while i < children.len()
                invariant
                    i <= children.len(),
                    dd@.wf(),
                    obeys_arith::<T>(),
                    mdd_prob_sum_defined(dd@, rows_view(pv@), ss@, node, children@.len()),
                    dd@.valid(node),
                    dd@.is_nonterminal(node),
                    dd@.children(node) == children@,
                    match fp {
                        Some(row) => assoc_get(rows_view(pv@), dd@.header(node).label) == Some(
                            row@,
                        ),
                        None => assoc_get(rows_view(pv@), dd@.header(node).label) is None,
                    },
                    mdd_prob_memo_ok(dd@, rows_view(pv@), ss@, cache@),
                    held == old(cache)@,
                    memo_kept(held, cache@),
                    seen_from(dd@, node, 0, held.dom()) == seen_from(
                        dd@,
                        node,
                        i as nat,
                        cache@.dom(),
                    ),
                    result == mdd_prob_sum(dd@, rows_view(pv@), ss@, node, i as nat),
                    forall|j: int| 0 <= j < i ==> dd@.undet_free(#[trigger] children@[j]),
                    dd@.undet_free(node) <==> forall|j: int|
                        0 <= j < dd@.children(node).len() ==> dd@.undet_free(
                            #[trigger] dd@.children(node)[j],
                        ),
                decreases children.len() - i,
            {
                proof {
                    assert(dd@.node_linked(node));
                    assert(dd@.node_descends(node));
                    assert(dd@.valid(children@[i as int]));
                    assert(dd@.rank(children@[i as int]) < dd@.rank(node));
                    lemma_mdd_sum_defined_prefix(
                        dd@,
                        rows_view(pv@),
                        ss@,
                        node,
                        (i + 1) as nat,
                        children@.len(),
                    );
                }
                let ghost then = cache@;
                let tmp = match prob_in(dd, children[i], pv, ss, cache) {
                    Ok(v) => v,
                    Err(e) => {
                        assert(!dd@.undet_free(dd@.children(node)[i as int]));
                        proof {
                            lemma_memo_kept_twice(held, then, cache@);
                        }
                        return Err(e);
                    },
                };
                proof {
                    lemma_memo_kept_twice(held, then, cache@);
                    lemma_seen_from_step(dd@, node, i as nat, then.dom());
                }
                let p = match fp {
                    Some(row) => if i < row.len() {
                        row[i]
                    } else {
                        T::from(0i8)
                    },
                    None => T::from(0i8),
                };
                result = result + p * tmp;
                i = i + 1;
            }
            proof {
                lemma_seen_from_end(dd@, node, i as nat, cache@.dom());
            }
            result
        },
    };
    proof {
        lemma_memo_kept_entry(held, cache@, node, result);
    }
    cache.insert(node, result);
    assert(cache@.dom() =~= seen_after(dd@, node, held.dom()));
    Ok(result)
}

/// The probability of a node of either table of `mdd` for `ss`.
pub open spec fn prob_of<V: MDDValue, T: ProbValue>(
    mdd: &MtMdd2Manager<V>,
    node: crate::mtmdd2::Node,
    pv: Seq<(Seq<char>, Seq<T>)>,
    ss: Seq<V>,
) -> T {
    match node {
        crate::mtmdd2::Node::Value(id) => mdd_prob_spec(mdd.mtmdd@, pv, ss, id),
        crate::mtmdd2::Node::Bool(id) => mdd_prob_spec(mdd.mdd@, pv, bool_targets(ss), id),
    }
}

/// The probability of a node of either table of `mdd` can be computed.
pub open spec fn prob_defined_of<V: MDDValue, T: ProbValue>(
    mdd: &MtMdd2Manager<V>,
    node: crate::mtmdd2::Node,
    pv: Seq<(Seq<char>, Seq<T>)>,
    ss: Seq<V>,
) -> bool {
    match node {
        crate::mtmdd2::Node::Value(id) => mdd_prob_defined(mdd.mtmdd@, pv, ss, id),
        crate::mtmdd2::Node::Bool(id) => mdd_prob_defined(mdd.mdd@, pv, bool_targets(ss), id),
    }
}

/// No undetermined node can be reached from the node in its table.
pub open spec fn node_undet_free<V: MDDValue>(
    mdd: &MtMdd2Manager<V>,
    node: crate::mtmdd2::Node,
) -> bool {
    match node {
        crate::mtmdd2::Node::Value(id) => mdd.mtmdd@.undet_free(id),
        crate::mtmdd2::Node::Bool(id) => mdd.mdd@.undet_free(id),
    }
}

/// The error for a node that cannot be evaluated.
pub open spec fn node_refusal<V: MDDValue>(
    mdd: &MtMdd2Manager<V>,
    node: crate::mtmdd2::Node,
) -> Error {
    match node {
        crate::mtmdd2::Node::Value(id) => refusal(mdd.mtmdd@, id),
        crate::mtmdd2::Node::Bool(id) => refusal(mdd.mdd@, id),
    }
}

/// The probability that the diagram, entered at `node`, ends in a
/// terminal whose value is in `ss`, where `pv` gives for each label the
/// probabilities of the values of its variable, and 0 for what it does not
/// hold. In a Boolean diagram false counts as the value 0 and true as the
/// value 1. Fails with `MissingNode` for a node that its table does not
/// hold and with `InvalidDiagram` where an undetermined node can be
/// reached.
pub fn prob<V: MDDValue, T: ProbValue>(
    mdd: &MtMdd2Manager<V>,
    node: &crate::mtmdd2::Node,
    pv: &[(String, Vec<T>)],
    ss: &[V],
) -> (r: Result<T, Error>)
    requires
        mdd.wf(),
        obeys_arith::<T>(),
        prob_defined_of(mdd, *node, rows_view(pv@), ss@),
    ensures
        match r {
            Ok(v) => node_undet_free(mdd, *node) && v == prob_of(mdd, *node, rows_view(pv@), ss@),
            Err(e) => !node_undet_free(mdd, *node) && e == node_refusal(mdd, *node),
        },
{
    match node {
        crate::mtmdd2::Node::Value(fnode) => {
            let mut cache: HashMap<NodeId, T> = HashMap::new();
            prob_in(&mdd.mtmdd, *fnode, pv, ss, &mut cache)
        },
        crate::mtmdd2::Node::Bool(fnode) => {
            let sb = to_bool_targets(ss);
            let mut cache: HashMap<NodeId, T> = HashMap::new();
            prob_in(&mdd.mdd, *fnode, pv, sb.as_slice(), &mut cache)
        },
    }
}

/// One entry of a gradient: the label of a variable, the index of one of
/// its values, and the derivative of the probability by the probability
/// of that value.
pub type Partial<T> = (Seq<char>, usize, T);

/// Where the single pass of the sensitivity analysis stands: the weight
/// with which each node is reached from the root, as far as it is known,
/// and the gradient gathered so far.
pub struct MddSensitivity<T> {
    pub weight: Map<NodeId, T>,
    pub grad: Seq<Partial<T>>,
}

/// The place of the first entry for the value `i` of the variable `x` in
/// a gradient, and the length of the gradient where there is none.
pub open spec fn partial_index<T>(g: Seq<Partial<T>>, x: Seq<char>, i: usize) -> int
    decreases g.len(),
{
    if g.len() == 0 {
        0
    } else if g[0].0 == x && g[0].1 == i {
        0
    } else {
        1 + partial_index(g.drop_first(), x, i)
    }
}

/// The gradient `g` with `delta` added to the entry for the value `i` of
/// the variable `x`; where there is no such entry, it comes at the end.
pub open spec fn partial_add<T: ProbValue>(
    g: Seq<Partial<T>>,
    x: Seq<char>,
    i: usize,
    delta: T,
) -> Seq<Partial<T>> {
    let at = partial_index(g, x, i);
    if 0 <= at < g.len() {
        g.update(at, (x, i, g[at].2.add_spec(delta)))
    } else {
        g.push((x, i, delta))
    }
}

/// Adding `delta` to the entry for the value `i` of `x` is defined.
pub open spec fn partial_add_defined<T: ProbValue>(
    g: Seq<Partial<T>>,
    x: Seq<char>,
    i: usize,
    delta: T,
) -> bool {
    let at = partial_index(g, x, i);
    0 <= at < g.len() ==> g[at].2.add_req(delta)
}

/// A gradient as a mathematical value.
pub open spec fn partials_view<T>(g: Seq<(String, usize, T)>) -> Seq<Partial<T>> {
    g.map_values(|e: (String, usize, T)| (e.0@, e.1, e.2))
}

proof fn lemma_partial_index<T>(g: Seq<Partial<T>>, x: Seq<char>, i: usize, at: int)
    requires
        0 <= at <= g.len(),
        forall|j: int| 0 <= j < at ==> !((#[trigger] g[j]).0 == x && g[j].1 == i),
        at < g.len() ==> g[at].0 == x && g[at].1 == i,
    ensures
        partial_index(g, x, i) == at,
    decreases at,
{
    if at > 0 {
        let rest = g.drop_first();
        assert(!(g[0].0 == x && g[0].1 == i));
        assert forall|j: int| 0 <= j < at - 1 implies !((#[trigger] rest[j]).0 == x && rest[j].1
            == i) by {
            assert(rest[j] == g[j + 1]);
        }
        if at < g.len() {
            assert(rest[at - 1] == g[at]);
        }
        lemma_partial_index(rest, x, i, at - 1);
    }
}

/// Adds `delta` to the entry of `g` for the value `i` of `x`, or enters
/// it there.
fn accumulate_partial<T: ProbValue>(g: &mut Vec<(String, usize, T)>, x: &String, i: usize, delta: T)
    requires
        obeys_arith::<T>(),
        partial_add_defined(partials_view(old(g)@), x@, i, delta),
    ensures
        partials_view(final(g)@) == partial_add(partials_view(old(g)@), x@, i, delta),
{
    let ghost view = partials_view(g@);
    let mut at: usize = 0;
    while at < g.len()
        invariant
            at <= g.len(),
            g@ == old(g)@,
            obeys_arith::<T>(),
            partial_add_defined(view, x@, i, delta),
            view == partials_view(g@),
            forall|j: int| 0 <= j < at ==> !((#[trigger] view[j]).0 == x@ && view[j].1 == i),
        decreases g.len() - at,
    {
        if g[at].1 == i && g[at].0 == *x {
            proof {
                lemma_partial_index(view, x@, i, at as int);
            }
            let sum = g[at].2 + delta;
            g.set(at, (x.clone(), i, sum));
            assert(partials_view(g@) =~= partial_add(view, x@, i, delta));
            return ;
        }
        at = at + 1;
    }
    proof {
        lemma_partial_index(view, x@, i, g.len() as int);
    }
    g.push((x.clone(), i, delta));
    assert(partials_view(g@) =~= partial_add(view, x@, i, delta));
}

/// The probability of the `i`-th child of `f`, where it stands below
/// `f`.
pub open spec fn child_prob<L, T: ProbValue>(
    dd: TableView<L>,
    pv: Seq<(Seq<char>, Seq<T>)>,
    ss: Seq<L>,
    f: NodeId,
    i: int,
) -> T {
    mdd_prob_spec(dd, pv, ss, dd.children(f)[i])
}

/// The pass at node `f`, with weight `w`, after the first `n` children:
/// child by child, the weight times the probability of the value goes to
/// the weight of the child, and the weight times the probability of the
/// child to the gradient of the value.
pub open spec fn mdd_bmeas_step<L, T: ProbValue>(
    dd: TableView<L>,
    pv: Seq<(Seq<char>, Seq<T>)>,
    ss: Seq<L>,
    st: MddSensitivity<T>,
    f: NodeId,
    w: T,
    n: nat,
) -> MddSensitivity<T>
    decreases n,
{
    if n == 0 || n > dd.children(f).len() {
        st
    } else {
        let i = (n - 1) as int;
        let before = mdd_bmeas_step(dd, pv, ss, st, f, w, (n - 1) as nat);
        MddSensitivity {
            weight: add_weight(
                before.weight,
                dd.children(f)[i],
                w.mul_spec(value_prob(dd, pv, f, i)),
            ),
            grad: partial_add(
                before.grad,
                dd.header(f).label,
                i as usize,
                w.mul_spec(child_prob(dd, pv, ss, f, i)),
            ),
        }
    }
}

/// The pass at node `f` after the first `n` children can be computed.
pub open spec fn mdd_bmeas_step_defined<L, T: ProbValue>(
    dd: TableView<L>,
    pv: Seq<(Seq<char>, Seq<T>)>,
    ss: Seq<L>,
    st: MddSensitivity<T>,
    f: NodeId,
    w: T,
    n: nat,
) -> bool
    decreases n,
{
    if n == 0 || n > dd.children(f).len() {
        true
    } else {
        let i = (n - 1) as int;
        let before = mdd_bmeas_step(dd, pv, ss, st, f, w, (n - 1) as nat);
        let p = value_prob(dd, pv, f, i);
        let below = child_prob(dd, pv, ss, f, i);
        &&& mdd_bmeas_step_defined(dd, pv, ss, st, f, w, (n - 1) as nat)
        &&& w.mul_req(p)
        &&& add_weight_defined(before.weight, dd.children(f)[i], w.mul_spec(p))
        &&& mdd_prob_defined(dd, pv, ss, dd.children(f)[i])
        &&& w.mul_req(below)
        &&& partial_add_defined(before.grad, dd.header(f).label, i as usize, w.mul_spec(below))
    }
}

/// The weight with which the pass comes to node `f`.
pub open spec fn weight_at<T: ProbValue>(st: MddSensitivity<T>, f: NodeId) -> T {
    if st.weight.contains_key(f) {
        st.weight[f]
    } else {
        zero_spec::<T>()
    }
}

/// The pass over the nodes of `order`, one after the other, from `init`.
pub open spec fn mdd_bmeas_fold<L, T: ProbValue>(
    dd: TableView<L>,
    pv: Seq<(Seq<char>, Seq<T>)>,
    ss: Seq<L>,
    order: Seq<NodeId>,
    init: MddSensitivity<T>,
) -> MddSensitivity<T>
    decreases order.len(),
{
    if order.len() == 0 {
        init
    } else {
        let before = mdd_bmeas_fold(dd, pv, ss, order.drop_last(), init);
        let f = order.last();
        if dd.is_nonterminal(f) {
            mdd_bmeas_step(dd, pv, ss, before, f, weight_at(before, f), dd.children(f).len())
        } else {
            before
        }
    }
}

/// Every step of the pass over `order` can be computed.
pub open spec fn mdd_bmeas_fold_defined<L, T: ProbValue>(
    dd: TableView<L>,
    pv: Seq<(Seq<char>, Seq<T>)>,
    ss: Seq<L>,
    order: Seq<NodeId>,
    init: MddSensitivity<T>,
) -> bool
    decreases order.len(),
{
    order.len() == 0 || {
        let before = mdd_bmeas_fold(dd, pv, ss, order.drop_last(), init);
        let f = order.last();
        &&& mdd_bmeas_fold_defined(dd, pv, ss, order.drop_last(), init)
        &&& (dd.is_nonterminal(f) ==> mdd_bmeas_step_defined(
            dd,
            pv,
            ss,
            before,
            f,
            weight_at(before, f),
            dd.children(f).len(),
        ))
    }
}

/// The state in which the pass starts: weight 1 at `node`.
pub open spec fn mdd_bmeas_init<T: ProbValue>(node: NodeId) -> MddSensitivity<T> {
    MddSensitivity { weight: Map::empty().insert(node, one_spec::<T>()), grad: Seq::empty() }
}

/// The derivative of the probability of `node` by the probability of
/// each value of each variable below it, in the order in which the pass
/// meets them: the pass starts with weight 1 at `node` and takes the
/// nodes below it in topological order.
pub open spec fn mdd_bmeas_spec<L, T: ProbValue>(
    dd: TableView<L>,
    ss: Seq<L>,
    node: NodeId,
    pv: Seq<(Seq<char>, Seq<T>)>,
) -> Seq<Partial<T>> {
    mdd_bmeas_fold(
        dd,
        pv,
        ss,
        dfs(dd, node, Set::empty()).reverse(),
        mdd_bmeas_init::<T>(node),
    ).grad
}

/// The sensitivities of `node` can be computed: its probability can, and
/// so can every step of the pass.
pub open spec fn mdd_bmeas_defined<L, T: ProbValue>(
    dd: TableView<L>,
    ss: Seq<L>,
    node: NodeId,
    pv: Seq<(Seq<char>, Seq<T>)>,
) -> bool {
    &&& mdd_prob_defined(dd, pv, ss, node)
    &&& mdd_bmeas_fold_defined(
        dd,
        pv,
        ss,
        dfs(dd, node, Set::empty()).reverse(),
        mdd_bmeas_init::<T>(node),
    )
}

proof fn lemma_mdd_fold_defined_prefix<L, T: ProbValue>(
    dd: TableView<L>,
    pv: Seq<(Seq<char>, Seq<T>)>,
    ss: Seq<L>,
    order: Seq<NodeId>,
    init: MddSensitivity<T>,
    n: int,
)
    requires
        0 <= n <= order.len(),
        mdd_bmeas_fold_defined(dd, pv, ss, order, init),
    ensures
        mdd_bmeas_fold_defined(dd, pv, ss, order.subrange(0, n), init),
    decreases order.len() - n,
{
    if n == order.len() {
        assert(order.subrange(0, n) =~= order);
    } else {
        assert(order.drop_last().subrange(0, n) =~= order.subrange(0, n));
        lemma_mdd_fold_defined_prefix(dd, pv, ss, order.drop_last(), init, n);
    }
}

proof fn lemma_mdd_step_defined_prefix<L, T: ProbValue>(
    dd: TableView<L>,
    pv: Seq<(Seq<char>, Seq<T>)>,
    ss: Seq<L>,
    st: MddSensitivity<T>,
    f: NodeId,
    w: T,
    n: nat,
    m: nat,
)
    requires
        n <= m <= dd.children(f).len(),
        mdd_bmeas_step_defined(dd, pv, ss, st, f, w, m),
    ensures
        mdd_bmeas_step_defined(dd, pv, ss, st, f, w, n),
    decreases m - n,
{
    if n < m {
        lemma_mdd_step_defined_prefix(dd, pv, ss, st, f, w, n, (m - 1) as nat);
    }
}

/// Where the arithmetic of `T` is defined on all values, every pass can
/// be computed.
pub proof fn lemma_total_mdd_bmeas_defined<L, T: ProbValue>(
    dd: TableView<L>,
    ss: Seq<L>,
    node: NodeId,
    pv: Seq<(Seq<char>, Seq<T>)>,
)
    requires
        total_arith::<T>(),
    ensures
        mdd_bmeas_defined(dd, ss, node, pv),
{
    lemma_total_mdd_prob_defined(dd, pv, ss, node);
    lemma_total_mdd_fold_defined(
        dd,
        pv,
        ss,
        dfs(dd, node, Set::empty()).reverse(),
        mdd_bmeas_init::<T>(node),
    );
}

proof fn lemma_total_mdd_fold_defined<L, T: ProbValue>(
    dd: TableView<L>,
    pv: Seq<(Seq<char>, Seq<T>)>,
    ss: Seq<L>,
    order: Seq<NodeId>,
    init: MddSensitivity<T>,
)
    requires
        total_arith::<T>(),
    ensures
        mdd_bmeas_fold_defined(dd, pv, ss, order, init),
    decreases order.len(),
{
    if order.len() > 0 {
        lemma_total_mdd_fold_defined(dd, pv, ss, order.drop_last(), init);
        let before = mdd_bmeas_fold(dd, pv, ss, order.drop_last(), init);
        let f = order.last();
        lemma_total_mdd_step_defined(
            dd,
            pv,
            ss,
            before,
            f,
            weight_at(before, f),
            dd.children(f).len(),
        );
    }
}

proof fn lemma_total_mdd_step_defined<L, T: ProbValue>(
    dd: TableView<L>,
    pv: Seq<(Seq<char>, Seq<T>)>,
    ss: Seq<L>,
    st: MddSensitivity<T>,
    f: NodeId,
    w: T,
    n: nat,
)
    requires
        total_arith::<T>(),
    ensures
        mdd_bmeas_step_defined(dd, pv, ss, st, f, w, n),
    decreases n,
{
    if !(n == 0 || n > dd.children(f).len()) {
        lemma_total_mdd_step_defined(dd, pv, ss, st, f, w, (n - 1) as nat);
        lemma_total_mdd_prob_defined(dd, pv, ss, dd.children(f)[n - 1]);
    }
}

/// Adds `delta` to the weight of `id`.
fn add_to_weight_at<T: ProbValue>(w: &mut HashMap<NodeId, T>, id: NodeId, delta: T)
    requires
        obeys_arith::<T>(),
        add_weight_defined(old(w)@, id, delta),
    ensures
        final(w)@ == add_weight(old(w)@, id, delta),
{
    broadcast use vstd::std_specs::hash::group_hash_axioms;

    let next = match w.get(&id) {
        Some(val) => *val + delta,
        None => delta,
    };
    w.insert(id, next);
}

/// The sensitivity of the probability of `node` to the probability of
/// each value of each variable: for each label below `node` and each
/// value of its variable the derivative of the probability by the
/// probability of that value, found in one pass over the nodes in
/// topological order. Fails as `prob_in` does.
pub fn bmeas_in<L: Leaf, T: ProbValue>(
    dd: &NodeTable<L>,
    ss: &[L],
    node: NodeId,
    pv: &[(String, Vec<T>)],
) -> (r: Result<Vec<(String, usize, T)>, Error>)
    requires
        dd@.wf(),
        obeys_arith::<T>(),
        mdd_bmeas_defined(dd@, ss@, node, rows_view(pv@)),
    ensures
        match r {
            Ok(g) => dd@.undet_free(node) && partials_view(g@) == mdd_bmeas_spec(
                dd@,
                ss@,
                node,
                rows_view(pv@),
            ),
            Err(e) => !dd@.undet_free(node) && e == refusal(dd@, node),
        },
{
    broadcast use vstd::std_specs::hash::group_hash_axioms;

    let mut probs: HashMap<NodeId, T> = HashMap::new();
    match prob_in(dd, node, pv, ss, &mut probs) {
        Ok(_) => {},
        Err(e) => {
            return Err(e);
        },
    }
    proof {
        lemma_wf_linked(dd@);
    }
    let sorted_nodes = match topological_sort(dd, node) {
        Ok(v) => v,
        Err(e) => {
            return Err(e);
        },
    };
    let mut weights: HashMap<NodeId, T> = HashMap::new();
    let mut grad: Vec<(String, usize, T)> = Vec::new();
    weights.insert(node, T::from(1i8));
    let ghost rows = rows_view(pv@);
    let ghost init = mdd_bmeas_init::<T>(node);
    proof {
        lemma_dfs_undet_free(dd@, node, Set::empty());
        assert(sorted_nodes@.subrange(0, 0) =~= Seq::<NodeId>::empty());
        assert(partials_view(grad@) =~= init.grad);
        assert(weights@ =~= init.weight);
        let d = dfs(dd@, node, Set::empty());
        assert forall|j: int| 0 <= j < sorted_nodes@.len() implies dd@.undet_free(
            #[trigger] sorted_nodes@[j],
        ) by {
            assert(sorted_nodes@[j] == d[d.len() - 1 - j]);
        }
    }
    let mut k: usize = 0;
    while k < sorted_nodes.len()
        invariant
            k <= sorted_nodes.len(),
            dd@.wf(),
            obeys_arith::<T>(),
            rows == rows_view(pv@),
            mdd_bmeas_fold_defined(dd@, rows, ss@, sorted_nodes@, init),
            mdd_prob_memo_ok(dd@, rows, ss@, probs@),
            forall|j: int|
                0 <= j < sorted_nodes@.len() ==> dd@.undet_free(#[trigger] sorted_nodes@[j]),
            (MddSensitivity { weight: weights@, grad: partials_view(grad@) }) == mdd_bmeas_fold(
                dd@,
                rows,
                ss@,
                sorted_nodes@.subrange(0, k as int),
                init,
            ),
        decreases sorted_nodes.len() - k,
    {
        let f = sorted_nodes[k];
        let ghost done = sorted_nodes@.subrange(0, k as int);
        let ghost before = mdd_bmeas_fold(dd@, rows, ss@, done, init);
        proof {
            let upto = sorted_nodes@.subrange(0, k + 1);
            assert(upto.drop_last() =~= sorted_nodes@.subrange(0, k as int));
            assert(upto.last() == f);
            assert(dd@.undet_free(f));
            lemma_mdd_fold_defined_prefix(dd@, rows, ss@, sorted_nodes@, init, k + 1);
        }
        match dd.get_node(f).unwrap() {
            Node::NonTerminal { header, children } => {
                proof {
                    assert(dd@.node_linked(f));
                    assert(dd@.is_nonterminal(f));
                    assert(dd@.children(f) == children@);
                    lemma_undet_free_children(dd@, f);
                }
                let w = match weights.get(&f) {
                    Some(val) => *val,
                    None => T::from(0i8),
                };
                let label = dd.label(f).unwrap();
                let fp = lookup_row(pv, label);
                let mut i: usize = 0;
                while i < children.len()
                    invariant
                        i <= children.len(),
                        dd@.wf(),
                        obeys_arith::<T>(),
                        rows == rows_view(pv@),
                        dd@.valid(f),
                        dd@.is_nonterminal(f),
                        dd@.children(f) == children@,
                        label@ == dd@.header(f).label,
                        w == weight_at(before, f),
                        match fp {
                            Some(row) => assoc_get(rows, dd@.header(f).label) == Some(row@),
                            None => assoc_get(rows, dd@.header(f).label) is None,
                        },
                        forall|j: int|
                            0 <= j < children@.len() ==> dd@.undet_free(#[trigger] children@[j]),
                        mdd_bmeas_step_defined(dd@, rows, ss@, before, f, w, children@.len()),
                        mdd_prob_memo_ok(dd@, rows, ss@, probs@),
                        (MddSensitivity { weight: weights@, grad: partials_view(grad@) })
                            == mdd_bmeas_step(dd@, rows, ss@, before, f, w, i as nat),
                    decreases children.len() - i,
                {
                    proof {
                        lemma_mdd_step_defined_prefix(
                            dd@,
                            rows,
                            ss@,
                            before,
                            f,
                            w,
                            (i + 1) as nat,
                            children@.len(),
                        );
                        assert(dd@.node_linked(f));
                        assert(dd@.valid(children@[i as int]));
                        assert(dd@.undet_free(children@[i as int]));
                    }
                    let p = match fp {
                        Some(row) => if i < row.len() {
                            row[i]
                        } else {
                            T::from(0i8)
                        },
                        None => T::from(0i8),
                    };
                    add_to_weight_at(&mut weights, children[i], w * p);
                    let below = match prob_in(dd, children[i], pv, ss, &mut probs) {
                        Ok(v) => v,
                        Err(e) => {
                            return Err(e);
                        },
                    };
                    accumulate_partial(&mut grad, label, i, w * below);
                    i = i + 1;
                }
            },
            _ => {},
        }
        k = k + 1;
    }
    assert(sorted_nodes@.subrange(0, sorted_nodes@.len() as int) =~= sorted_nodes@);
    Ok(grad)
}

/// The sensitivities of a node of either table of `mdd` can be computed.
pub open spec fn bmeas_defined_of<V: MDDValue, T: ProbValue>(
    mdd: &MtMdd2Manager<V>,
    node: crate::mtmdd2::Node,
    pv: Seq<(Seq<char>, Seq<T>)>,
    ss: Seq<V>,
) -> bool {
    match node {
        crate::mtmdd2::Node::Value(id) => mdd_bmeas_defined(mdd.mtmdd@, ss, id, pv),
        crate::mtmdd2::Node::Bool(id) => mdd_bmeas_defined(mdd.mdd@, bool_targets(ss), id, pv),
    }
}

/// The sensitivities of a node of either table of `mdd` for `ss`.
pub open spec fn bmeas_of<V: MDDValue, T: ProbValue>(
    mdd: &MtMdd2Manager<V>,
    node: crate::mtmdd2::Node,
    pv: Seq<(Seq<char>, Seq<T>)>,
    ss: Seq<V>,
) -> Seq<Partial<T>> {
    match node {
        crate::mtmdd2::Node::Value(id) => mdd_bmeas_spec(mdd.mtmdd@, ss, id, pv),
        crate::mtmdd2::Node::Bool(id) => mdd_bmeas_spec(mdd.mdd@, bool_targets(ss), id, pv),
    }
}

/// The sensitivity of the probability that the diagram, entered at
/// `node`, ends in a terminal whose value is in `ss`, to the probability
/// of each value of each variable. Fails as `prob` does.
pub fn bmeas<V: MDDValue, T: ProbValue>(
    mdd: &MtMdd2Manager<V>,
    node: &crate::mtmdd2::Node,
    pv: &[(String, Vec<T>)],
    ss: &[V],
) -> (r: Result<Vec<(String, usize, T)>, Error>)
    requires
        mdd.wf(),
        obeys_arith::<T>(),
        bmeas_defined_of(mdd, *node, rows_view(pv@), ss@),
    ensures
        match r {
            Ok(g) => node_undet_free(mdd, *node) && partials_view(g@) == bmeas_of(
                mdd,
                *node,
                rows_view(pv@),
                ss@,
            ),
            Err(e) => !node_undet_free(mdd, *node) && e == node_refusal(mdd, *node),
        },
{
    match node {
        crate::mtmdd2::Node::Value(fnode) => bmeas_in(&mdd.mtmdd, ss, *fnode, pv),
        crate::mtmdd2::Node::Bool(fnode) => {
            let sb = to_bool_targets(ss);
            bmeas_in(&mdd.mdd, sb.as_slice(), *fnode, pv)
        },
    }
}

} // verus!
