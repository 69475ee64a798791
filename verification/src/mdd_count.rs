use crate::bdd_count::leaf_count;
use crate::common::{
    contains, lemma_memo_kept_entry, lemma_memo_kept_same, lemma_memo_kept_twice, memo_kept, Error,
    HeaderId, Leaf, Level, NodeId,
};
use crate::levels::{expected, headers_by_level, level_headers, levels_named};
use crate::mtmdd2::{bool_targets, to_bool_targets, MDDValue, MtMdd2Manager};
use crate::numeric::CountValue;
use crate::table::{Node, NodeTable, NodeView, TableView};
use crate::traverse::{
    lemma_seen_from_end, lemma_seen_from_step, lemma_walk_leaf, lemma_walk_node, seen_after,
    seen_from,
};
use std::collections::HashMap;
use vstd::prelude::*;

verus! {

/// The number of values of the variable at level `l`; 1 where no header
/// stands there.
pub open spec fn edge_num_at<L>(dd: TableView<L>, l: nat) -> nat {
    if dd.has_level(l as Level) {
        dd.headers[dd.header_at(l as Level) as int].edge_num as nat
    } else {
        1
    }
}

/// The number of assignments to the `k` lowest variables.
pub open spec fn domain_size<L>(dd: TableView<L>, k: nat) -> nat
    decreases k,
{
    if k == 0 {
        1
    } else {
        edge_num_at(dd, (k - 1) as nat) * domain_size(dd, (k - 1) as nat)
    }
}

/// The number of assignments to the `k` lowest variables under which the
/// diagram, entered at `id`, ends in a terminal of `ss`. A variable that
/// the diagram does not decide on takes every one of its values. The
/// undetermined terminal counts for nothing.
pub open spec fn mdd_count_spec<L>(dd: TableView<L>, ss: Seq<L>, k: nat, id: NodeId) -> nat
    decreases k, 0nat,
{
    if !dd.valid(id) || dd.nodes[id as int] is Undet {
        0
    } else if k == 0 {
        match dd.nodes[id as int] {
            NodeView::Terminal(v) => leaf_count(ss, v),
            _ => 0,
        }
    } else if dd.is_nonterminal(id) && dd.rank(id) == k {
        mdd_count_sum(dd, ss, (k - 1) as nat, dd.children(id), dd.children(id).len())
    } else {
        edge_num_at(dd, (k - 1) as nat) * mdd_count_spec(dd, ss, (k - 1) as nat, id)
    }
}

/// The counts of the first `n` of `children`, added up.
pub open spec fn mdd_count_sum<L>(
    dd: TableView<L>,
    ss: Seq<L>,
    k: nat,
    children: Seq<NodeId>,
    n: nat,
) -> nat
    decreases k, n + 1,
{
    if n == 0 || n > children.len() {
        0
    } else {
        mdd_count_sum(dd, ss, k, children, (n - 1) as nat) + mdd_count_spec(
            dd,
            ss,
            k,
            children[n - 1],
        )
    }
}

/// The number of paths from `id` to a terminal of `ss`.
pub open spec fn zmdd_count_spec<L>(dd: TableView<L>, ss: Seq<L>, id: NodeId) -> nat
    decreases dd.rank(id), dd.children(id).len() + 2,
{
    if !dd.valid(id) {
        0
    } else {
        match dd.nodes[id as int] {
            NodeView::Terminal(v) => leaf_count(ss, v),
            NodeView::Undet => 0,
            NodeView::NonTerminal { header, children } => zmdd_count_sum(
                dd,
                ss,
                id,
                children.len(),
            ),
        }
    }
}

/// The path counts of the first `n` children of `id`, added up.
pub open spec fn zmdd_count_sum<L>(dd: TableView<L>, ss: Seq<L>, id: NodeId, n: nat) -> nat
    decreases dd.rank(id), n + 1,
{
    if n == 0 || n > dd.children(id).len() {
        0
    } else {
        let c = dd.children(id)[n - 1];
        zmdd_count_sum(dd, ss, id, (n - 1) as nat) + if dd.rank(c) < dd.rank(id) {
            zmdd_count_spec(dd, ss, c)
        } else {
            0
        }
    }
}

/// For the empty target set the count of every node is nothing.
pub proof fn lemma_mdd_count_of_nothing<L>(dd: TableView<L>, k: nat, id: NodeId)
    ensures
        mdd_count_spec(dd, Seq::empty(), k, id) == 0,
    decreases k, 0nat,
{
    if !dd.valid(id) || dd.nodes[id as int] is Undet {
    } else if k == 0 {
    } else if dd.is_nonterminal(id) && dd.rank(id) == k {
        lemma_mdd_sum_of_nothing(dd, (k - 1) as nat, dd.children(id), dd.children(id).len());
    } else {
        lemma_mdd_count_of_nothing(dd, (k - 1) as nat, id);
        assert(edge_num_at(dd, (k - 1) as nat) * 0 == 0);
    }
}

proof fn lemma_mdd_sum_of_nothing<L>(dd: TableView<L>, k: nat, children: Seq<NodeId>, n: nat)
    ensures
        mdd_count_sum(dd, Seq::empty(), k, children, n) == 0,
    decreases k, n + 1,
{
    if !(n == 0 || n > children.len()) {
        lemma_mdd_sum_of_nothing(dd, k, children, (n - 1) as nat);
        lemma_mdd_count_of_nothing(dd, k, children[n - 1]);
    }
}

/// For the empty target set no path leads anywhere.
pub proof fn lemma_zmdd_count_of_nothing<L>(dd: TableView<L>, id: NodeId)
    ensures
        zmdd_count_spec(dd, Seq::empty(), id) == 0,
    decreases dd.rank(id), dd.children(id).len() + 2,
{
    if dd.valid(id) && dd.nodes[id as int] is NonTerminal {
        lemma_zmdd_sum_of_nothing(dd, id, dd.children(id).len());
    }
}

proof fn lemma_zmdd_sum_of_nothing<L>(dd: TableView<L>, id: NodeId, n: nat)
    ensures
        zmdd_count_sum(dd, Seq::empty(), id, n) == 0,
    decreases dd.rank(id), n + 1,
{
    if !(n == 0 || n > dd.children(id).len()) {
        lemma_zmdd_sum_of_nothing(dd, id, (n - 1) as nat);
        let c = dd.children(id)[n - 1];
        if dd.rank(c) < dd.rank(id) {
            lemma_zmdd_count_of_nothing(dd, c);
        }
    }
}

/// The key of a node and a number of variables in the memo of the count.
pub open spec fn count_key(id: NodeId, k: nat) -> u128 {
    (id as u128 * 0x1_0000_0000_0000_0000u128 + k as u128) as u128
}

/// A memo of the count: the entry under the key of a node and a number of
/// variables is the count of that node over that many variables.
pub open spec fn mdd_memo_ok<L, T: CountValue>(
    dd: TableView<L>,
    ss: Seq<L>,
    cache: Map<u128, T>,
) -> bool {
    forall|id: NodeId, k: usize| #[trigger]
        cache.contains_key(count_key(id, k as nat)) ==> cache[count_key(id, k as nat)].value()
            == mdd_count_spec(dd, ss, k as nat, id)
}

/// A memo of the path count: each entry is the path count of its node.
pub open spec fn zmdd_memo_ok<L, T: CountValue>(
    dd: TableView<L>,
    ss: Seq<L>,
    cache: Map<NodeId, T>,
) -> bool {
    forall|k: NodeId| #[trigger]
        cache.contains_key(k) ==> cache[k].value() == zmdd_count_spec(dd, ss, k)
}

/// A hit in the memo of the path count is what a fresh computation
/// gives.
pub proof fn lemma_zmdd_memo_agrees<L, T: CountValue>(
    dd: TableView<L>,
    ss: Seq<L>,
    cache: Map<NodeId, T>,
    other: Map<NodeId, T>,
    id: NodeId,
)
    requires
        zmdd_memo_ok(dd, ss, cache),
        zmdd_memo_ok(dd, ss, other),
        cache.contains_key(id),
        other.contains_key(id),
    ensures
        cache[id].value() == other[id].value(),
        cache[id].value() == zmdd_count_spec(dd, ss, id),
{
}

proof fn lemma_count_key_injective(a: NodeId, k: usize, b: NodeId, j: usize)
    requires
        count_key(a, k as nat) == count_key(b, j as nat),
    ensures
        a == b,
        k == j,
{
    assert(a == b && k == j) by (nonlinear_arith)
        requires
            a as u128 * 0x1_0000_0000_0000_0000u128 + k as u128 == b as u128
                * 0x1_0000_0000_0000_0000u128 + j as u128,
            0 <= k < 0x1_0000_0000_0000_0000,
            0 <= j < 0x1_0000_0000_0000_0000,
            0 <= a,
            0 <= b,
    ;
}

/// The sizes of the domains are positive and grow with the number of
/// variables.
pub proof fn lemma_domain_size_grows<L>(dd: TableView<L>, a: nat, b: nat)
    requires
        dd.wf(),
        a <= b,
    ensures
        1 <= domain_size(dd, a) <= domain_size(dd, b),
    decreases b,
{
    if b == 0 {
    } else {
        let e = edge_num_at(dd, (b - 1) as nat);
        assert(e >= 1) by {
            if dd.has_level((b - 1) as Level) {
                let h = dd.header_at((b - 1) as Level);
                assert(dd.headers[h as int].edge_num >= 2);
            }
        }
        if a == b {
            lemma_domain_size_grows(dd, (b - 1) as nat, (b - 1) as nat);
        } else {
            lemma_domain_size_grows(dd, a, (b - 1) as nat);
        }
        assert(e * domain_size(dd, (b - 1) as nat) >= domain_size(dd, (b - 1) as nat))
            by (nonlinear_arith)
            requires
                e >= 1,
        ;
    }
}

/// A count never exceeds the number of assignments.
pub proof fn lemma_mdd_count_bound<L>(dd: TableView<L>, ss: Seq<L>, k: nat, id: NodeId)
    requires
        dd.wf(),
    ensures
        mdd_count_spec(dd, ss, k, id) <= domain_size(dd, k),
    decreases k, 0nat,
{
    lemma_domain_size_grows(dd, 0, k);
    if !dd.valid(id) || dd.nodes[id as int] is Undet {
    } else if k == 0 {
    } else if dd.is_nonterminal(id) && dd.rank(id) == k {
        let children = dd.children(id);
        lemma_mdd_count_sum_bound(dd, ss, (k - 1) as nat, children, children.len());
        assert(dd.node_linked(id));
        crate::levels::lemma_header_at(dd, (k - 1) as Level, dd.header_id(id));
        assert(edge_num_at(dd, (k - 1) as nat) == children.len());
    } else {
        lemma_mdd_count_bound(dd, ss, (k - 1) as nat, id);
        let e = edge_num_at(dd, (k - 1) as nat);
        let c = mdd_count_spec(dd, ss, (k - 1) as nat, id);
        let d = domain_size(dd, (k - 1) as nat);
        assert(e * c <= e * d) by (nonlinear_arith)
            requires
                c <= d,
        ;
    }
}

pub proof fn lemma_mdd_count_sum_bound<L>(
    dd: TableView<L>,
    ss: Seq<L>,
    k: nat,
    children: Seq<NodeId>,
    n: nat,
)
    requires
        dd.wf(),
        n <= children.len(),
    ensures
        mdd_count_sum(dd, ss, k, children, n) <= n * domain_size(dd, k),
    decreases k, n + 1,
{
    if n == 0 {
    } else {
        lemma_mdd_count_sum_bound(dd, ss, k, children, (n - 1) as nat);
        lemma_mdd_count_bound(dd, ss, k, children[n - 1]);
        assert((n - 1) * domain_size(dd, k) + domain_size(dd, k) == n * domain_size(dd, k))
            by (nonlinear_arith);
    }
}

/// A path count never exceeds the number of assignments to the variables
/// at and below the node.
pub proof fn lemma_zmdd_count_bound<L>(dd: TableView<L>, ss: Seq<L>, id: NodeId)
    requires
        dd.wf(),
    ensures
        zmdd_count_spec(dd, ss, id) <= domain_size(dd, dd.rank(id)),
    decreases dd.rank(id), dd.children(id).len() + 2,
{
    lemma_domain_size_grows(dd, 0, dd.rank(id));
    if dd.valid(id) && dd.nodes[id as int] is NonTerminal {
        let k = dd.rank(id);
        let children = dd.children(id);
        lemma_zmdd_count_sum_bound(dd, ss, id, children.len());
        assert(dd.node_linked(id));
        crate::levels::lemma_header_at(dd, (k - 1) as Level, dd.header_id(id));
        assert(edge_num_at(dd, (k - 1) as nat) == children.len());
    }
}

pub proof fn lemma_zmdd_count_sum_bound<L>(dd: TableView<L>, ss: Seq<L>, id: NodeId, n: nat)
    requires
        dd.wf(),
        dd.is_nonterminal(id),
        n <= dd.children(id).len(),
    ensures
        zmdd_count_sum(dd, ss, id, n) <= n * domain_size(dd, (dd.rank(id) - 1) as nat),
    decreases dd.rank(id), n + 1,
{
    if n == 0 {
    } else {
        let c = dd.children(id)[n - 1];
        let d = domain_size(dd, (dd.rank(id) - 1) as nat);
        lemma_zmdd_count_sum_bound(dd, ss, id, (n - 1) as nat);
        if dd.rank(c) < dd.rank(id) {
            lemma_zmdd_count_bound(dd, ss, c);
            lemma_domain_size_grows(dd, dd.rank(c), (dd.rank(id) - 1) as nat);
        }
        assert((n - 1) * d + d == n * d) by (nonlinear_arith);
    }
}

/// The count of `id` over the `k` lowest variables can be computed in
/// `T`: the type holds every number that the computation meets.
pub open spec fn mdd_count_fits<L, T: CountValue>(
    dd: TableView<L>,
    ss: Seq<L>,
    k: nat,
    id: NodeId,
) -> bool
    decreases k, 0nat,
{
    if !dd.valid(id) || dd.nodes[id as int] is Undet {
        T::fits(0)
    } else if k == 0 {
        match dd.nodes[id as int] {
            NodeView::Terminal(v) => T::fits(leaf_count(ss, v)),
            _ => T::fits(0),
        }
    } else if dd.is_nonterminal(id) && dd.rank(id) == k {
        T::fits(0) && mdd_sum_fits::<L, T>(
            dd,
            ss,
            (k - 1) as nat,
            dd.children(id),
            dd.children(id).len(),
        )
    } else {
        let e = edge_num_at(dd, (k - 1) as nat);
        &&& T::fits(e)
        &&& mdd_count_fits::<L, T>(dd, ss, (k - 1) as nat, id)
        &&& T::fits(e * mdd_count_spec(dd, ss, (k - 1) as nat, id))
    }
}

/// The sum of the counts of the first `n` of `children` can be computed
/// in `T`.
pub open spec fn mdd_sum_fits<L, T: CountValue>(
    dd: TableView<L>,
    ss: Seq<L>,
    k: nat,
    children: Seq<NodeId>,
    n: nat,
) -> bool
    decreases k, n + 1,
{
    if n == 0 || n > children.len() {
        true
    } else {
        &&& mdd_sum_fits::<L, T>(dd, ss, k, children, (n - 1) as nat)
        &&& mdd_count_fits::<L, T>(dd, ss, k, children[n - 1])
        &&& T::fits(mdd_count_sum(dd, ss, k, children, n))
    }
}

/// A type that holds the number of assignments to the `k` lowest
/// variables can hold the count of a node over these variables.
pub proof fn lemma_mdd_count_fits<L, T: CountValue>(dd: TableView<L>, ss: Seq<L>, k: nat, id: NodeId)
    requires
        dd.wf(),
        T::fits(domain_size(dd, k)),
    ensures
        mdd_count_fits::<L, T>(dd, ss, k, id),
    decreases k, 0nat,
{
    let full = domain_size(dd, k);
    lemma_domain_size_grows(dd, 0, k);
    T::lemma_fits_below(full, 0);
    T::lemma_fits_below(full, 1);
    if !dd.valid(id) || dd.nodes[id as int] is Undet {
    } else if k == 0 {
    } else if dd.is_nonterminal(id) && dd.rank(id) == k {
        lemma_domain_size_grows(dd, (k - 1) as nat, k);
        T::lemma_fits_below(full, domain_size(dd, (k - 1) as nat));
        lemma_mdd_sum_fits::<L, T>(dd, ss, k, id, dd.children(id).len());
    } else {
        let e = edge_num_at(dd, (k - 1) as nat);
        let d = domain_size(dd, (k - 1) as nat);
        lemma_domain_size_grows(dd, (k - 1) as nat, k);
        assert(e <= e * d) by (nonlinear_arith)
            requires
                d >= 1,
                e >= 0,
        ;
        T::lemma_fits_below(full, e);
        T::lemma_fits_below(full, d);
        lemma_mdd_count_fits::<L, T>(dd, ss, (k - 1) as nat, id);
        lemma_mdd_count_bound(dd, ss, (k - 1) as nat, id);
        let c = mdd_count_spec(dd, ss, (k - 1) as nat, id);
        assert(e * c <= e * d) by (nonlinear_arith)
            requires
                c <= d,
                e >= 0,
        ;
        T::lemma_fits_below(full, e * c);
    }
}

proof fn lemma_mdd_sum_fits<L, T: CountValue>(
    dd: TableView<L>,
    ss: Seq<L>,
    k: nat,
    id: NodeId,
    n: nat,
)
    requires
        dd.wf(),
        k > 0,
        dd.is_nonterminal(id),
        dd.rank(id) == k,
        n <= dd.children(id).len(),
        T::fits(domain_size(dd, k)),
        T::fits(domain_size(dd, (k - 1) as nat)),
    ensures
        mdd_sum_fits::<L, T>(dd, ss, (k - 1) as nat, dd.children(id), n),
    decreases k, 0nat, n,
{
    if n > 0 {
        let children = dd.children(id);
        let d = domain_size(dd, (k - 1) as nat);
        lemma_mdd_sum_fits::<L, T>(dd, ss, k, id, (n - 1) as nat);
        lemma_mdd_count_fits::<L, T>(dd, ss, (k - 1) as nat, children[n - 1]);
        lemma_mdd_count_sum_bound(dd, ss, (k - 1) as nat, children, n);
        assert(dd.node_linked(id));
        crate::levels::lemma_header_at(dd, (k - 1) as Level, dd.header_id(id));
        assert(edge_num_at(dd, (k - 1) as nat) == children.len());
        assert(n * d <= children.len() * d) by (nonlinear_arith)
            requires
                n <= children.len(),
                d >= 0,
        ;
        T::lemma_fits_below(
            domain_size(dd, k),
            mdd_count_sum(dd, ss, (k - 1) as nat, children, n),
        );
    }
}

/// What can be computed for the first `m` children can be computed for
/// fewer of them.
proof fn lemma_mdd_sum_fits_prefix<L, T: CountValue>(
    dd: TableView<L>,
    ss: Seq<L>,
    k: nat,
    children: Seq<NodeId>,
    n: nat,
    m: nat,
)
    requires
        n <= m <= children.len(),
        mdd_sum_fits::<L, T>(dd, ss, k, children, m),
    ensures
        mdd_sum_fits::<L, T>(dd, ss, k, children, n),
    decreases m - n,
{
    if n < m {
        lemma_mdd_sum_fits_prefix::<L, T>(dd, ss, k, children, n, (m - 1) as nat);
    }
}

/// The count of `node` over the variables up to `level`.
fn mdd_count_rec<L: Leaf, T: CountValue>(
    dd: &NodeTable<L>,
    node: NodeId,
    ss: &[L],
    cache: &mut HashMap<u128, T>,
    level: Option<Level>,
    level2headers: &Vec<HeaderId>,
) -> (r: T)
    requires
        dd@.wf(),
        dd@.valid(node),
        dd@.rank(node) <= expected(level),
        expected(level) <= level2headers@.len(),
        headers_by_level(dd@, level2headers@),
        mdd_count_fits::<L, T>(dd@, ss@, expected(level), node),
        mdd_memo_ok(dd@, ss@, old(cache)@),
    ensures
        r.value() == mdd_count_spec(dd@, ss@, expected(level), node),
        mdd_memo_ok(dd@, ss@, final(cache)@),
        memo_kept(old(cache)@, final(cache)@),
        final(cache)@.contains_key(count_key(node, expected(level))),
        final(cache)@[count_key(node, expected(level))].value() == r.value(),
    decreases expected(level), 1nat,
{
    broadcast use vstd::std_specs::hash::group_hash_axioms;

    let ghost held = cache@;
    proof {
        lemma_memo_kept_same(held);
    }
    let named = level2headers.len();
    let k: usize = match level {
        Some(l) => l + 1,
        None => 0,
    };
    let key: u128 = (node as u128) * 0x1_0000_0000_0000_0000u128 + (k as u128);
    assert(key == count_key(node, k as nat));
    if let Some(x) = cache.get(&key) {
        return x.duplicate();
    }
    let result = match level {
        None => {
            match dd.get_node(node).unwrap() {
                Node::Terminal(v) => {
                    if contains(ss, v) {
                        T::from_u32(1)
                    } else {
                        T::from_u32(0)
                    }
                },
                _ => T::from_u32(0),
            }
        },
        Some(l) => {
            let lower: Option<Level> = if l > 0 {
                Some(l - 1)
            } else {
                None
            };
            proof {
                assert(expected(lower) == (k - 1) as nat);
            }
            match dd.get_node(node).unwrap() {
                Node::Undet => T::from_u32(0),
                Node::Terminal(_) => mdd_count_skip(dd, node, ss, cache, l, lower, level2headers),
                Node::NonTerminal { header, children } => {
                    let here = match dd.level(node) {
                        Some(own) => own == l,
                        None => false,
                    };
                    if here {
                        proof {
                            assert(dd@.node_linked(node));
                            assert(dd@.node_descends(node));
                            assert(dd@.is_nonterminal(node));
                            assert(dd@.children(node) == children@);
                        }
                        let mut result = T::from_u32(0);
                        let mut i: usize = 0;
                        while i < children.len()
                            invariant
                                i <= children.len(),
                                dd@.wf(),
                                dd@.valid(node),
                                dd@.is_nonterminal(node),
                                dd@.children(node) == children@,
                                dd@.rank(node) == k,
                                k == l + 1,
                                expected(level) == k as nat,
                                expected(lower) == (k - 1) as nat,
                                expected(lower) <= level2headers@.len(),
                                headers_by_level(dd@, level2headers@),
                                mdd_sum_fits::<L, T>(
                                    dd@,
                                    ss@,
                                    (k - 1) as nat,
                                    children@,
                                    children@.len(),
                                ),
                                mdd_memo_ok(dd@, ss@, cache@),
                                memo_kept(held, cache@),
                                result.value() == mdd_count_sum(
                                    dd@,
                                    ss@,
                                    (k - 1) as nat,
                                    children@,
                                    i as nat,
                                ),
                            decreases children.len() - i,
                        {
                            proof {
                                assert(dd@.node_linked(node));
                                assert(dd@.node_descends(node));
                                assert(dd@.valid(children@[i as int]));
                                assert(dd@.rank(children@[i as int]) < dd@.rank(node));
                                lemma_mdd_sum_fits_prefix::<L, T>(
                                    dd@,
                                    ss@,
                                    (k - 1) as nat,
                                    children@,
                                    (i + 1) as nat,
                                    children@.len(),
                                );
                            }
                            let ghost then = cache@;
                            let tmp: T = mdd_count_rec(
                                dd,
                                children[i],
                                ss,
                                cache,
                                lower,
                                level2headers,
                            );
                            proof {
                                lemma_memo_kept_twice(held, then, cache@);
                            }
                            result = result.plus(&tmp);
                            i = i + 1;
                        }
                        result
                    } else {
                        mdd_count_skip(dd, node, ss, cache, l, lower, level2headers)
                    }
                },
            }
        },
    };
    let kept = result.duplicate();
    proof {
        lemma_memo_kept_entry(held, cache@, key, kept);
    }
    cache.insert(key, kept);
    proof {
        assert forall|id: NodeId, j: usize| #[trigger]
            cache@.contains_key(count_key(id, j as nat)) implies cache@[count_key(
            id,
            j as nat,
        )].value() == mdd_count_spec(dd@, ss@, j as nat, id) by {
            if count_key(id, j as nat) == key {
                lemma_count_key_injective(node, k, id, j);
            } else {
                assert(old(cache)@.contains_key(count_key(id, j as nat)) || true);
            }
        }
    }
    result
}

/// The count of `node` over the variables up to level `l`, which the
/// node does not decide on: the number of values of that variable times
/// the count over the variables below.
fn mdd_count_skip<L: Leaf, T: CountValue>(
    dd: &NodeTable<L>,
    node: NodeId,
    ss: &[L],
    cache: &mut HashMap<u128, T>,
    l: Level,
    lower: Option<Level>,
    level2headers: &Vec<HeaderId>,
) -> (r: T)
    requires
        dd@.wf(),
        dd@.valid(node),
        !(dd@.nodes[node as int] is Undet),
        dd@.rank(node) <= l,
        expected(lower) == l,
        l < level2headers@.len(),
        headers_by_level(dd@, level2headers@),
        mdd_count_fits::<L, T>(dd@, ss@, (l + 1) as nat, node),
        mdd_memo_ok(dd@, ss@, old(cache)@),
    ensures
        r.value() == mdd_count_spec(dd@, ss@, (l + 1) as nat, node),
        mdd_memo_ok(dd@, ss@, final(cache)@),
        memo_kept(old(cache)@, final(cache)@),
    decreases l + 1, 0nat,
{
    let h = level2headers[l];
    let nedges = dd.get_header(h).unwrap().edge_num();
    proof {
        crate::levels::lemma_header_at(dd@, l, h);
        assert(edge_num_at(dd@, l as nat) == nedges);
    }
    let below: T = mdd_count_rec(dd, node, ss, cache, lower, level2headers);
    let factor: T = from_usize(nedges);
    factor.times(&below)
}

/// The number `n` in `T`.
fn from_usize<T: CountValue>(n: usize) -> (r: T)
    requires
        T::fits(n as nat),
    ensures
        r.value() == n,
{
    if n <= 0xffff_ffff {
        T::from_u32(n as u32)
    } else {
        proof {
            T::lemma_fits_below(n as nat, 0);
            T::lemma_fits_below(n as nat, 1);
        }
        let mut r = T::from_u32(0);
        let one = T::from_u32(1);
        let mut i: usize = 0;
        while i < n
            invariant
                i <= n,
                T::fits(n as nat),
                r.value() == i,
                one.value() == 1,
            decreases n - i,
        {
            proof {
                T::lemma_fits_below(n as nat, (i + 1) as nat);
            }
            r = r.plus(&one);
            i = i + 1;
        }
        r
    }
}

/// The number of assignments to the variables at and below `node` under
/// which the diagram of `dd` ends in a terminal of `ss`. Fails with
/// `MissingNode` for a node that the table does not hold, and with
/// `MissingHeader` where a level below that of `node` has no header, so
/// that the number of its values is not known.
pub fn count_in<L: Leaf, T: CountValue>(dd: &NodeTable<L>, node: NodeId, ss: &[L]) -> (r: Result<
    T,
    Error,
>)
    requires
        dd@.wf(),
        dd@.valid(node) ==> mdd_count_fits::<L, T>(dd@, ss@, dd@.rank(node), node),
    ensures
        match r {
            Ok(v) => {
                &&& dd@.valid(node)
                &&& levels_named(dd@, dd@.rank(node))
                &&& v.value() == mdd_count_spec(dd@, ss@, dd@.rank(node), node)
            },
            Err(e) => if !dd@.valid(node) {
                e == Error::MissingNode
            } else {
                e == Error::MissingHeader && !levels_named(dd@, dd@.rank(node))
            },
        },
{
    if dd.get_node(node).is_none() {
        return Err(Error::MissingNode);
    }
    let level = dd.level(node);
    let level2headers = match level_headers(dd, level) {
        Ok(v) => v,
        Err(e) => {
            return Err(e);
        },
    };
    let mut cache: HashMap<u128, T> = HashMap::new();
    Ok(mdd_count_rec(dd, node, ss, &mut cache, level, &level2headers))
}

/// The path count of `id` can be computed in `T`: the type holds every
/// number that the computation meets.
pub open spec fn zmdd_count_fits<L, T: CountValue>(dd: TableView<L>, ss: Seq<L>, id: NodeId) -> bool
    decreases dd.rank(id), dd.children(id).len() + 2,
{
    if !dd.valid(id) {
        true
    } else {
        match dd.nodes[id as int] {
            NodeView::Terminal(v) => T::fits(leaf_count(ss, v)),
            NodeView::Undet => T::fits(0),
            NodeView::NonTerminal { header, children } => T::fits(0) && zmdd_sum_fits::<L, T>(
                dd,
                ss,
                id,
                children.len(),
            ),
        }
    }
}

/// The sum of the path counts of the first `n` children of `id` can be
/// computed in `T`.
pub open spec fn zmdd_sum_fits<L, T: CountValue>(
    dd: TableView<L>,
    ss: Seq<L>,
    id: NodeId,
    n: nat,
) -> bool
    decreases dd.rank(id), n + 1,
{
    if n == 0 || n > dd.children(id).len() {
        true
    } else {
        let c = dd.children(id)[n - 1];
        &&& zmdd_sum_fits::<L, T>(dd, ss, id, (n - 1) as nat)
        &&& (dd.rank(c) < dd.rank(id) ==> zmdd_count_fits::<L, T>(dd, ss, c))
        &&& T::fits(zmdd_count_sum(dd, ss, id, n))
    }
}

/// A type that holds the number of assignments to the variables at and
/// below a node can hold the path count of the node.
pub proof fn lemma_zmdd_count_fits<L, T: CountValue>(dd: TableView<L>, ss: Seq<L>, id: NodeId)
    requires
        dd.wf(),
        T::fits(domain_size(dd, dd.rank(id))),
    ensures
        zmdd_count_fits::<L, T>(dd, ss, id),
    decreases dd.rank(id), dd.children(id).len() + 2,
{
    let full = domain_size(dd, dd.rank(id));
    lemma_domain_size_grows(dd, 0, dd.rank(id));
    T::lemma_fits_below(full, 0);
    T::lemma_fits_below(full, 1);
    if dd.valid(id) && dd.nodes[id as int] is NonTerminal {
        lemma_zmdd_sum_fits::<L, T>(dd, ss, id, dd.children(id).len());
    }
}

proof fn lemma_zmdd_sum_fits<L, T: CountValue>(dd: TableView<L>, ss: Seq<L>, id: NodeId, n: nat)
    requires
        dd.wf(),
        dd.is_nonterminal(id),
        n <= dd.children(id).len(),
        T::fits(domain_size(dd, dd.rank(id))),
    ensures
        zmdd_sum_fits::<L, T>(dd, ss, id, n),
    decreases dd.rank(id), n + 1,
{
    if n > 0 {
        let k = dd.rank(id);
        let full = domain_size(dd, k);
        let children = dd.children(id);
        let c = children[n - 1];
        let d = domain_size(dd, (k - 1) as nat);
        lemma_zmdd_sum_fits::<L, T>(dd, ss, id, (n - 1) as nat);
        if dd.rank(c) < dd.rank(id) {
            lemma_domain_size_grows(dd, dd.rank(c), k);
            T::lemma_fits_below(full, domain_size(dd, dd.rank(c)));
            lemma_zmdd_count_fits::<L, T>(dd, ss, c);
        }
        lemma_zmdd_count_sum_bound(dd, ss, id, n);
        assert(dd.node_linked(id));
        crate::levels::lemma_header_at(dd, (k - 1) as Level, dd.header_id(id));
        assert(edge_num_at(dd, (k - 1) as nat) == children.len());
        assert(n * d <= children.len() * d) by (nonlinear_arith)
            requires
                n <= children.len(),
                d >= 0,
        ;
        T::lemma_fits_below(full, zmdd_count_sum(dd, ss, id, n));
    }
}

proof fn lemma_zmdd_sum_fits_prefix<L, T: CountValue>(
    dd: TableView<L>,
    ss: Seq<L>,
    id: NodeId,
    n: nat,
    m: nat,
)
    requires
        n <= m <= dd.children(id).len(),
        zmdd_sum_fits::<L, T>(dd, ss, id, m),
    ensures
        zmdd_sum_fits::<L, T>(dd, ss, id, n),
    decreases m - n,
{
    if n < m {
        lemma_zmdd_sum_fits_prefix::<L, T>(dd, ss, id, n, (m - 1) as nat);
    }
}

/// The number of paths from `node` to a terminal of `ss`, with `cache`
/// as the memo of this diagram and target set: afterwards it holds,
/// beside what it held, the count of each node that the walk from `node`
/// met for the first time.
pub fn zmdd_count_rec<L: Leaf, T: CountValue>(
    dd: &NodeTable<L>,
    node: NodeId,
    ss: &[L],
    cache: &mut HashMap<NodeId, T>,
) -> (r: T)
    requires
        dd@.wf(),
        dd@.valid(node),
        zmdd_count_fits::<L, T>(dd@, ss@, node),
        zmdd_memo_ok(dd@, ss@, old(cache)@),
    ensures
        r.value() == zmdd_count_spec(dd@, ss@, node),
        zmdd_memo_ok(dd@, ss@, final(cache)@),
        memo_kept(old(cache)@, final(cache)@),
        final(cache)@.dom() == seen_after(dd@, node, old(cache)@.dom()),
        final(cache)@.contains_key(node),
        final(cache)@[node].value() == r.value(),
    decreases dd@.rank(node),
{
    broadcast use vstd::std_specs::hash::group_hash_axioms;

    let ghost held = cache@;
    proof {
        lemma_memo_kept_same(held);
    }
    if let Some(x) = cache.get(&node) {
        proof {
            lemma_walk_leaf(dd@, node, held.dom());
            assert(held.dom().insert(node) =~= held.dom());
        }
        return x.duplicate();
    }
    proof {
        if dd@.is_nonterminal(node) {
            lemma_walk_node(dd@, node, held.dom());
        } else {
            lemma_walk_leaf(dd@, node, held.dom());
        }
    }
    let result = match dd.get_node(node).unwrap() {
        Node::Terminal(v) => {
            if contains(ss, v) {
                T::from_u32(1)
            } else {
                T::from_u32(0)
            }
        },
        Node::Undet => T::from_u32(0),
        Node::NonTerminal { header, children } => {
            proof {
                assert(dd@.node_linked(node));
                assert(dd@.is_nonterminal(node));
                assert(dd@.children(node) == children@);
            }
            let mut result = T::from_u32(0);
            let mut i: usize = 0;
            while i < children.len()
                invariant
                    i <= children.len(),
                    dd@.wf(),
                    dd@.valid(node),
                    dd@.is_nonterminal(node),
                    dd@.children(node) == children@,
                    zmdd_sum_fits::<L, T>(dd@, ss@, node, children@.len()),
                    zmdd_memo_ok(dd@, ss@, cache@),
                    memo_kept(held, cache@),
                    seen_from(dd@, node, 0, held.dom()) == seen_from(
                        dd@,
                        node,
                        i as nat,
                        cache@.dom(),
                    ),
                    result.value() == zmdd_count_sum(dd@, ss@, node, i as nat),
                decreases children.len() - i,
            {
                proof {
                    assert(dd@.node_linked(node));
                    assert(dd@.node_descends(node));
                    let c = children@[i as int];
                    assert(dd@.valid(c));
                    assert(dd@.rank(c) < dd@.rank(node));
                    lemma_zmdd_sum_fits_prefix::<L, T>(
                        dd@,
                        ss@,
                        node,
                        (i + 1) as nat,
                        children@.len(),
                    );
                }
                let ghost then = cache@;
                let tmp: T = zmdd_count_rec(dd, children[i], ss, cache);
                proof {
                    lemma_memo_kept_twice(held, then, cache@);
                    lemma_seen_from_step(dd@, node, i as nat, then.dom());
                }
                result = result.plus(&tmp);
                i = i + 1;
            }
            proof {
                lemma_seen_from_end(dd@, node, i as nat, cache@.dom());
            }
            result
        },
    };
    let kept = result.duplicate();
    proof {
        lemma_memo_kept_entry(held, cache@, node, kept);
    }
    cache.insert(node, kept);
    assert(cache@.dom() =~= seen_after(dd@, node, held.dom()));
    result
}

/// The count of a node of either table of `mdd` for the target set `ss`.
pub open spec fn count_of<V: MDDValue>(
    mdd: &MtMdd2Manager<V>,
    node: crate::mtmdd2::Node,
    ss: Seq<V>,
) -> nat {
    match node {
        crate::mtmdd2::Node::Value(id) => mdd_count_spec(mdd.mtmdd@, ss, mdd.mtmdd@.rank(id), id),
        crate::mtmdd2::Node::Bool(id) => mdd_count_spec(
            mdd.mdd@,
            bool_targets(ss),
            mdd.mdd@.rank(id),
            id,
        ),
    }
}

/// The path count of a node of either table of `mdd` for `ss`.
pub open spec fn path_count_of<V: MDDValue>(
    mdd: &MtMdd2Manager<V>,
    node: crate::mtmdd2::Node,
    ss: Seq<V>,
) -> nat {
    match node {
        crate::mtmdd2::Node::Value(id) => zmdd_count_spec(mdd.mtmdd@, ss, id),
        crate::mtmdd2::Node::Bool(id) => zmdd_count_spec(mdd.mdd@, bool_targets(ss), id),
    }
}

/// The node is in its table.
pub open spec fn node_valid<V: MDDValue>(mdd: &MtMdd2Manager<V>, node: crate::mtmdd2::Node) -> bool {
    match node {
        crate::mtmdd2::Node::Value(id) => mdd.mtmdd@.valid(id),
        crate::mtmdd2::Node::Bool(id) => mdd.mdd@.valid(id),
    }
}

/// Every level below that of the node has a header in the node's table.
pub open spec fn node_named<V: MDDValue>(mdd: &MtMdd2Manager<V>, node: crate::mtmdd2::Node) -> bool {
    match node {
        crate::mtmdd2::Node::Value(id) => levels_named(mdd.mtmdd@, mdd.mtmdd@.rank(id)),
        crate::mtmdd2::Node::Bool(id) => levels_named(mdd.mdd@, mdd.mdd@.rank(id)),
    }
}

/// The count of the node can be computed in `T`.
pub open spec fn node_count_fits<V: MDDValue, T: CountValue>(
    mdd: &MtMdd2Manager<V>,
    node: crate::mtmdd2::Node,
    ss: Seq<V>,
) -> bool {
    match node {
        crate::mtmdd2::Node::Value(id) => mdd_count_fits::<V, T>(
            mdd.mtmdd@,
            ss,
            mdd.mtmdd@.rank(id),
            id,
        ),
        crate::mtmdd2::Node::Bool(id) => mdd_count_fits::<bool, T>(
            mdd.mdd@,
            bool_targets(ss),
            mdd.mdd@.rank(id),
            id,
        ),
    }
}

/// The path count of the node can be computed in `T`.
pub open spec fn node_path_count_fits<V: MDDValue, T: CountValue>(
    mdd: &MtMdd2Manager<V>,
    node: crate::mtmdd2::Node,
    ss: Seq<V>,
) -> bool {
    match node {
        crate::mtmdd2::Node::Value(id) => zmdd_count_fits::<V, T>(mdd.mtmdd@, ss, id),
        crate::mtmdd2::Node::Bool(id) => zmdd_count_fits::<bool, T>(mdd.mdd@, bool_targets(ss), id),
    }
}

/// The number of assignments to the variables at and below `node` under
/// which the diagram ends in a terminal whose value is in `ss`; in a
/// Boolean diagram false counts as the value 0 and true as the value 1.
/// A variable that the diagram skips takes every one of its values.
/// Fails with `MissingNode` for a node that its table does not hold and
/// with `MissingHeader` where a level below the node has no header.
pub fn mdd_count<V: MDDValue, T: CountValue>(
    mdd: &MtMdd2Manager<V>,
    node: &crate::mtmdd2::Node,
    ss: &[V],
) -> (r: Result<T, Error>)
    requires
        mdd.wf(),
        node_valid(mdd, *node) ==> node_count_fits::<V, T>(mdd, *node, ss@),
    ensures
        match r {
            Ok(v) => node_valid(mdd, *node) && node_named(mdd, *node) && v.value() == count_of(
                mdd,
                *node,
                ss@,
            ),
            Err(e) => if !node_valid(mdd, *node) {
                e == Error::MissingNode
            } else {
                e == Error::MissingHeader && !node_named(mdd, *node)
            },
        },
{
    match node {
        crate::mtmdd2::Node::Value(fnode) => count_in(&mdd.mtmdd, *fnode, ss),
        crate::mtmdd2::Node::Bool(fnode) => {
            let sb = to_bool_targets(ss);
            count_in(&mdd.mdd, *fnode, sb.as_slice())
        },
    }
}

/// The number of paths from `node` to a terminal whose value is in `ss`:
/// the diagram read as a family of assignments to the variables that it
/// decides on. Fails with `MissingNode` for a node that its table does
/// not hold.
pub fn zmdd_count<V: MDDValue, T: CountValue>(
    mdd: &MtMdd2Manager<V>,
    node: &crate::mtmdd2::Node,
    ss: &[V],
) -> (r: Result<T, Error>)
    requires
        mdd.wf(),
        node_valid(mdd, *node) ==> node_path_count_fits::<V, T>(mdd, *node, ss@),
    ensures
        match r {
            Ok(v) => node_valid(mdd, *node) && v.value() == path_count_of(mdd, *node, ss@),
            Err(e) => !node_valid(mdd, *node) && e == Error::MissingNode,
        },
{
    match node {
        crate::mtmdd2::Node::Value(fnode) => {
            if mdd.mtmdd.get_node(*fnode).is_none() {
                return Err(Error::MissingNode);
            }
            let mut cache: HashMap<NodeId, T> = HashMap::new();
            Ok(zmdd_count_rec(&mdd.mtmdd, *fnode, ss, &mut cache))
        },
        crate::mtmdd2::Node::Bool(fnode) => {
            if mdd.mdd.get_node(*fnode).is_none() {
                return Err(Error::MissingNode);
            }
            let sb = to_bool_targets(ss);
            let mut cache: HashMap<NodeId, T> = HashMap::new();
            Ok(zmdd_count_rec(&mdd.mdd, *fnode, sb.as_slice(), &mut cache))
        },
    }
}

} // verus!
