use crate::bdd_prob::{lemma_undet_free_binary, refusal};
use crate::common::{
    lemma_memo_kept_entry, lemma_memo_kept_same, lemma_memo_kept_twice, memo_kept, Error, HeaderId,
    NodeId,
};
use crate::table::{
    hash_consed, lemma_extended, lemma_shared_one, Node, NodeTable, NodeView, TableView,
};
use std::collections::HashMap;
use vstd::prelude::*;

verus! {

/// The terminal false of a Boolean table.
pub const ZERO: NodeId = 1;

/// The terminal true of a Boolean table.
pub const ONE: NodeId = 2;

/// `r` is the node that decides on `h` between `low` and `high`: the node
/// itself where the two are one, a node of the table with that header and
/// these children otherwise.
pub open spec fn is_mk(dd: TableView<bool>, h: HeaderId, low: NodeId, high: NodeId, r: NodeId) -> bool {
    if low == high {
        r == low
    } else {
        dd.is_node(r, h, seq![low, high])
    }
}

/// `r` is `f` without `g`: the solutions of `f` that no solution of `g`
/// is part of. The rules, the first that applies:
/// nothing is left of false; without false all of `f` is left; without
/// true nothing is left; true without a node `g` decides on the variable
/// of `g` between true without each child of `g`; a node without itself
/// is false; for two nodes, the higher one is taken apart: if that is
/// `f`, each child of `f` goes without `g`; if that is `g`, `f` goes
/// without the low child of `g`; at one level, child goes without child.
/// No rule applies to an undetermined node that the first three do not
/// cover.
pub open spec fn is_without(dd: TableView<bool>, f: NodeId, g: NodeId, r: NodeId) -> bool
    decreases dd.rank(f) + dd.rank(g),
{
    if !dd.valid(f) || !dd.valid(g) {
        false
    } else {
        match (dd.nodes[f as int], dd.nodes[g as int]) {
            (NodeView::Terminal(false), _) => r == ZERO,
            (_, NodeView::Terminal(false)) => r == f,
            (_, NodeView::Terminal(true)) => r == ZERO,
            (NodeView::Terminal(true), NodeView::NonTerminal { header, children }) => {
                &&& children.len() == 2
                &&& dd.rank(children[0]) < dd.rank(g)
                &&& dd.rank(children[1]) < dd.rank(g)
                &&& exists|lo: NodeId, hi: NodeId|
                    is_without(dd, f, children[0], lo) && is_without(dd, f, children[1], hi)
                        && #[trigger] is_mk(dd, header, lo, hi, r)
            },
            (
                NodeView::NonTerminal { header: fh, children: fc },
                NodeView::NonTerminal { header: gh, children: gc },
            ) => {
                &&& fc.len() == 2
                &&& gc.len() == 2
                &&& dd.rank(fc[0]) < dd.rank(f)
                &&& dd.rank(fc[1]) < dd.rank(f)
                &&& dd.rank(gc[0]) < dd.rank(g)
                &&& dd.rank(gc[1]) < dd.rank(g)
                &&& if f == g {
                    r == ZERO
                } else if dd.rank(f) > dd.rank(g) {
                    exists|lo: NodeId, hi: NodeId|
                        is_without(dd, fc[0], g, lo) && is_without(dd, fc[1], g, hi)
                            && #[trigger] is_mk(dd, fh, lo, hi, r)
                } else if dd.rank(f) < dd.rank(g) {
                    is_without(dd, f, gc[0], r)
                } else {
                    exists|lo: NodeId, hi: NodeId|
                        is_without(dd, fc[0], gc[0], lo) && is_without(dd, fc[1], gc[1], hi)
                            && #[trigger] is_mk(dd, fh, lo, hi, r)
                }
            },
            _ => false,
        }
    }
}

/// No rule gives `f` without `g` a value: in taking the two apart by the
/// rules of [`is_without`], an undetermined node is met that the first
/// three rules do not cover.
pub open spec fn without_fails(dd: TableView<bool>, f: NodeId, g: NodeId) -> bool
    decreases dd.rank(f) + dd.rank(g),
{
    if !dd.valid(f) || !dd.valid(g) {
        true
    } else {
        match (dd.nodes[f as int], dd.nodes[g as int]) {
            (NodeView::Terminal(false), _) => false,
            (_, NodeView::Terminal(false)) => false,
            (_, NodeView::Terminal(true)) => false,
            (NodeView::Terminal(true), NodeView::NonTerminal { header, children }) => {
                children.len() == 2 && dd.rank(children[0]) < dd.rank(g) && dd.rank(children[1])
                    < dd.rank(g) ==> without_fails(dd, f, children[0]) || without_fails(
                    dd,
                    f,
                    children[1],
                )
            },
            (
                NodeView::NonTerminal { header: fh, children: fc },
                NodeView::NonTerminal { header: gh, children: gc },
            ) => {
                fc.len() == 2 && gc.len() == 2 && dd.rank(fc[0]) < dd.rank(f) && dd.rank(fc[1])
                    < dd.rank(f) && dd.rank(gc[0]) < dd.rank(g) && dd.rank(gc[1]) < dd.rank(g)
                    ==> if f == g {
                    false
                } else if dd.rank(f) > dd.rank(g) {
                    without_fails(dd, fc[0], g) || without_fails(dd, fc[1], g)
                } else if dd.rank(f) < dd.rank(g) {
                    without_fails(dd, f, gc[0])
                } else {
                    without_fails(dd, fc[0], gc[0]) || without_fails(dd, fc[1], gc[1])
                }
            },
            _ => true,
        }
    }
}

/// Whether `f` without `g` has a value stays the same when the table
/// grows.
pub proof fn lemma_without_fails_extends(a: TableView<bool>, b: TableView<bool>, f: NodeId, g: NodeId)
    requires
        a.wf(),
        a.extended_by(b),
        a.valid(f),
        a.valid(g),
    ensures
        without_fails(a, f, g) == without_fails(b, f, g),
    decreases a.rank(f) + a.rank(g),
{
    lemma_extended(a, b);
    assert(a.node_linked(f) && a.node_linked(g));
    assert(a.node_descends(f) && a.node_descends(g));
    match (a.nodes[f as int], a.nodes[g as int]) {
        (NodeView::Terminal(false), _) => {},
        (_, NodeView::Terminal(false)) => {},
        (_, NodeView::Terminal(true)) => {},
        (NodeView::Terminal(true), NodeView::NonTerminal { header, children }) => {
            assert(a.is_nonterminal(g));
            assert(a.children(g) == children);
            if children.len() == 2 {
                assert(a.valid(children[0]) && a.valid(children[1]));
                assert(a.rank(children[0]) < a.rank(g) && a.rank(children[1]) < a.rank(g));
                lemma_without_fails_extends(a, b, f, children[0]);
                lemma_without_fails_extends(a, b, f, children[1]);
            }
        },
        (
            NodeView::NonTerminal { header: fh, children: fc },
            NodeView::NonTerminal { header: gh, children: gc },
        ) => {
            assert(a.is_nonterminal(f) && a.is_nonterminal(g));
            assert(a.children(f) == fc && a.children(g) == gc);
            if fc.len() == 2 && gc.len() == 2 {
                assert(a.valid(fc[0]) && a.valid(fc[1]) && a.valid(gc[0]) && a.valid(gc[1]));
                assert(a.rank(fc[0]) < a.rank(f) && a.rank(fc[1]) < a.rank(f));
                assert(a.rank(gc[0]) < a.rank(g) && a.rank(gc[1]) < a.rank(g));
                if f == g {
                } else if a.rank(f) > a.rank(g) {
                    lemma_without_fails_extends(a, b, fc[0], g);
                    lemma_without_fails_extends(a, b, fc[1], g);
                } else if a.rank(f) < a.rank(g) {
                    lemma_without_fails_extends(a, b, f, gc[0]);
                } else {
                    lemma_without_fails_extends(a, b, fc[0], gc[0]);
                    lemma_without_fails_extends(a, b, fc[1], gc[1]);
                }
            }
        },
        _ => {},
    }
}

/// Where no undetermined node can be reached from `f` or from `g`, `f`
/// without `g` has a value.
pub proof fn lemma_without_never_fails(dd: TableView<bool>, f: NodeId, g: NodeId)
    requires
        dd.wf(),
        dd.binary(),
        dd.undet_free(f),
        dd.undet_free(g),
    ensures
        !without_fails(dd, f, g),
    decreases dd.rank(f) + dd.rank(g),
{
    assert(dd.valid(f) && dd.valid(g));
    assert(dd.node_linked(f) && dd.node_linked(g));
    assert(dd.node_descends(f) && dd.node_descends(g));
    match (dd.nodes[f as int], dd.nodes[g as int]) {
        (NodeView::Terminal(false), _) => {},
        (_, NodeView::Terminal(false)) => {},
        (_, NodeView::Terminal(true)) => {},
        (NodeView::Terminal(true), NodeView::NonTerminal { header, children }) => {
            assert(dd.is_nonterminal(g));
            assert(dd.children(g) == children);
            lemma_undet_free_binary(dd, g);
            assert(dd.rank(children[0]) < dd.rank(g) && dd.rank(children[1]) < dd.rank(g));
            lemma_without_never_fails(dd, f, children[0]);
            lemma_without_never_fails(dd, f, children[1]);
        },
        (
            NodeView::NonTerminal { header: fh, children: fc },
            NodeView::NonTerminal { header: gh, children: gc },
        ) => {
            assert(dd.is_nonterminal(f) && dd.is_nonterminal(g));
            assert(dd.children(f) == fc && dd.children(g) == gc);
            lemma_undet_free_binary(dd, f);
            lemma_undet_free_binary(dd, g);
            assert(dd.rank(fc[0]) < dd.rank(f) && dd.rank(fc[1]) < dd.rank(f));
            assert(dd.rank(gc[0]) < dd.rank(g) && dd.rank(gc[1]) < dd.rank(g));
            if f == g {
            } else if dd.rank(f) > dd.rank(g) {
                lemma_without_never_fails(dd, fc[0], g);
                lemma_without_never_fails(dd, fc[1], g);
            } else if dd.rank(f) < dd.rank(g) {
                lemma_without_never_fails(dd, f, gc[0]);
            } else {
                lemma_without_never_fails(dd, fc[0], gc[0]);
                lemma_without_never_fails(dd, fc[1], gc[1]);
            }
        },
        _ => {},
    }
}

/// `r` holds the minimal solutions of `f`: false and true stay; a node
/// keeps its variable, with the minimal solutions of its low child on the
/// low side and, on the high side, those of its high child without the
/// low child.
pub open spec fn is_minsol(dd: TableView<bool>, f: NodeId, r: NodeId) -> bool
    decreases dd.rank(f),
{
    if !dd.valid(f) {
        false
    } else {
        match dd.nodes[f as int] {
            NodeView::Terminal(false) => r == ZERO,
            NodeView::Terminal(true) => r == ONE,
            NodeView::Undet => false,
            NodeView::NonTerminal { header, children } => {
                &&& children.len() == 2
                &&& dd.rank(children[0]) < dd.rank(f)
                &&& dd.rank(children[1]) < dd.rank(f)
                &&& exists|lo: NodeId, tmp: NodeId, hi: NodeId|
                    is_minsol(dd, children[0], lo) && is_minsol(dd, children[1], tmp)
                        && is_without(dd, tmp, children[0], hi) && #[trigger] mk3(
                        dd,
                        header,
                        lo,
                        tmp,
                        hi,
                        r,
                    )
            },
        }
    }
}

/// `is_mk`, with the intermediate node `tmp` named.
pub open spec fn mk3(
    dd: TableView<bool>,
    h: HeaderId,
    lo: NodeId,
    tmp: NodeId,
    hi: NodeId,
    r: NodeId,
) -> bool {
    dd.valid(tmp) && is_mk(dd, h, lo, hi, r)
}

/// The key of the pair `(f, g)` in the memo of `without`.
pub open spec fn pair_key(f: NodeId, g: NodeId) -> u128 {
    (f as u128 * 0x1_0000_0000_0000_0000u128 + g as u128) as u128
}

pub open spec fn max_rank(dd: TableView<bool>, f: NodeId, g: NodeId) -> nat {
    if dd.rank(f) >= dd.rank(g) {
        dd.rank(f)
    } else {
        dd.rank(g)
    }
}

/// A memo of `minsol`: each entry is the minimal-solution node of its
/// key, no higher than the key, and no undetermined node can be reached
/// from either.
pub open spec fn minsol_memo_ok(dd: TableView<bool>, cache: Map<NodeId, NodeId>) -> bool {
    forall|k: NodeId| #[trigger]
        cache.contains_key(k) ==> dd.valid(cache[k]) && is_minsol(dd, k, cache[k]) && dd.rank(
            cache[k],
        ) <= dd.rank(k) && dd.undet_free(cache[k]) && dd.undet_free(k)
}

/// A memo of `without`: the entry under the key of a pair is that pair's
/// node, no higher than the higher of the two.
pub open spec fn without_memo_ok(dd: TableView<bool>, cache: Map<u128, NodeId>) -> bool {
    forall|f: NodeId, g: NodeId| #[trigger]
        cache.contains_key(pair_key(f, g)) ==> {
            let r = cache[pair_key(f, g)];
            &&& dd.valid(r)
            &&& is_without(dd, f, g, r)
            &&& dd.rank(r) <= max_rank(dd, f, g)
            &&& (dd.undet_free(f) ==> dd.undet_free(r))
            &&& !without_fails(dd, f, g)
        }
}

/// What holds of a node holds of it in a table that extends the first.
pub proof fn lemma_undet_free_extends<L>(a: TableView<L>, b: TableView<L>, id: NodeId)
    requires
        a.wf(),
        a.extended_by(b),
        a.valid(id),
    ensures
        a.undet_free(id) == b.undet_free(id),
    decreases a.rank(id),
{
    lemma_extended(a, b);
    if a.is_nonterminal(id) {
        assert(a.node_linked(id));
        assert(a.node_descends(id));
        let children = a.children(id);
        assert(b.children(id) == children);
        assert forall|i: int| 0 <= i < children.len() implies a.undet_free(#[trigger] children[i])
            == b.undet_free(children[i]) && a.rank(children[i]) == b.rank(children[i]) by {
            assert(a.valid(children[i]));
            assert(a.rank(children[i]) < a.rank(id));
            lemma_undet_free_extends(a, b, children[i]);
        }
        if a.undet_free(id) {
            assert forall|i: int| 0 <= i < children.len() implies b.rank(#[trigger] children[i])
                < b.rank(id) && b.undet_free(children[i]) by {
                assert(a.rank(children[i]) < a.rank(id) && a.undet_free(children[i]));
            }
        }
        if b.undet_free(id) {
            assert forall|i: int| 0 <= i < children.len() implies a.rank(#[trigger] children[i])
                < a.rank(id) && a.undet_free(children[i]) by {
                assert(b.rank(children[i]) < b.rank(id) && b.undet_free(children[i]));
            }
        }
    }
}

proof fn lemma_mk_extends(
    a: TableView<bool>,
    b: TableView<bool>,
    h: HeaderId,
    lo: NodeId,
    hi: NodeId,
    r: NodeId,
)
    requires
        a.extended_by(b),
        is_mk(a, h, lo, hi, r),
    ensures
        is_mk(b, h, lo, hi, r),
{
    lemma_extended(a, b);
}

pub proof fn lemma_without_extends(
    a: TableView<bool>,
    b: TableView<bool>,
    f: NodeId,
    g: NodeId,
    r: NodeId,
)
    requires
        a.wf(),
        a.extended_by(b),
        is_without(a, f, g, r),
    ensures
        is_without(b, f, g, r),
    decreases a.rank(f) + a.rank(g),
{
    lemma_extended(a, b);
    assert(a.valid(f) && a.valid(g));
    assert(a.node_linked(f) && a.node_linked(g));
    match (a.nodes[f as int], a.nodes[g as int]) {
        (NodeView::Terminal(false), _) => {},
        (_, NodeView::Terminal(false)) => {},
        (_, NodeView::Terminal(true)) => {},
        (NodeView::Terminal(true), NodeView::NonTerminal { header, children }) => {
            assert(a.is_nonterminal(g));
            assert(a.children(g) == children);
            assert(a.valid(children[0]) && a.valid(children[1]));
            let (lo, hi) = choose|lo: NodeId, hi: NodeId|
                is_without(a, f, children[0], lo) && is_without(a, f, children[1], hi)
                    && #[trigger] is_mk(a, header, lo, hi, r);
            lemma_without_extends(a, b, f, children[0], lo);
            lemma_without_extends(a, b, f, children[1], hi);
            lemma_mk_extends(a, b, header, lo, hi, r);
        },
        (
            NodeView::NonTerminal { header: fh, children: fc },
            NodeView::NonTerminal { header: gh, children: gc },
        ) => {
            assert(a.is_nonterminal(f) && a.is_nonterminal(g));
            assert(a.children(f) == fc && a.children(g) == gc);
            assert(a.valid(fc[0]) && a.valid(fc[1]) && a.valid(gc[0]) && a.valid(gc[1]));
            if f == g {
            } else if a.rank(f) > a.rank(g) {
                let (lo, hi) = choose|lo: NodeId, hi: NodeId|
                    is_without(a, fc[0], g, lo) && is_without(a, fc[1], g, hi)
                        && #[trigger] is_mk(a, fh, lo, hi, r);
                lemma_without_extends(a, b, fc[0], g, lo);
                lemma_without_extends(a, b, fc[1], g, hi);
                lemma_mk_extends(a, b, fh, lo, hi, r);
            } else if a.rank(f) < a.rank(g) {
                lemma_without_extends(a, b, f, gc[0], r);
            } else {
                let (lo, hi) = choose|lo: NodeId, hi: NodeId|
                    is_without(a, fc[0], gc[0], lo) && is_without(a, fc[1], gc[1], hi)
                        && #[trigger] is_mk(a, fh, lo, hi, r);
                lemma_without_extends(a, b, fc[0], gc[0], lo);
                lemma_without_extends(a, b, fc[1], gc[1], hi);
                lemma_mk_extends(a, b, fh, lo, hi, r);
            }
        },
        _ => {},
    }
}

pub proof fn lemma_minsol_extends(a: TableView<bool>, b: TableView<bool>, f: NodeId, r: NodeId)
    requires
        a.wf(),
        a.extended_by(b),
        is_minsol(a, f, r),
    ensures
        is_minsol(b, f, r),
    decreases a.rank(f),
{
    lemma_extended(a, b);
    assert(a.valid(f));
    assert(a.node_linked(f));
    match a.nodes[f as int] {
        NodeView::NonTerminal { header, children } => {
            assert(a.is_nonterminal(f));
            assert(a.children(f) == children);
            assert(a.valid(children[0]) && a.valid(children[1]));
            let (lo, tmp, hi) = choose|lo: NodeId, tmp: NodeId, hi: NodeId|
                is_minsol(a, children[0], lo) && is_minsol(a, children[1], tmp) && is_without(
                    a,
                    tmp,
                    children[0],
                    hi,
                ) && #[trigger] mk3(a, header, lo, tmp, hi, r);
            lemma_minsol_extends(a, b, children[0], lo);
            lemma_minsol_extends(a, b, children[1], tmp);
            lemma_without_extends(a, b, tmp, children[0], hi);
            lemma_mk_extends(a, b, header, lo, hi, r);
            assert(mk3(b, header, lo, tmp, hi, r));
        },
        _ => {},
    }
}

/// Memos stay in order when the table grows.
pub proof fn lemma_memos_extend(
    a: TableView<bool>,
    b: TableView<bool>,
    cache1: Map<NodeId, NodeId>,
    cache2: Map<u128, NodeId>,
)
    requires
        a.wf(),
        a.extended_by(b),
        minsol_memo_ok(a, cache1),
        without_memo_ok(a, cache2),
    ensures
        minsol_memo_ok(b, cache1),
        without_memo_ok(b, cache2),
{
    lemma_extended(a, b);
    assert forall|k: NodeId| #[trigger] cache1.contains_key(k) implies b.valid(cache1[k])
        && is_minsol(b, k, cache1[k]) && b.rank(cache1[k]) <= b.rank(k) && b.undet_free(
        cache1[k],
    ) && b.undet_free(k) by {
        lemma_minsol_extends(a, b, k, cache1[k]);
        lemma_undet_free_extends(a, b, cache1[k]);
        assert(a.valid(k));
        lemma_undet_free_extends(a, b, k);
    }
    assert forall|f: NodeId, g: NodeId| #[trigger]
        cache2.contains_key(pair_key(f, g)) implies {
        let r = cache2[pair_key(f, g)];
        &&& b.valid(r)
        &&& is_without(b, f, g, r)
        &&& b.rank(r) <= max_rank(b, f, g)
        &&& (b.undet_free(f) ==> b.undet_free(r))
        &&& !without_fails(b, f, g)
    } by {
        let r = cache2[pair_key(f, g)];
        lemma_without_extends(a, b, f, g, r);
        assert(a.valid(f) && a.valid(g));
        lemma_undet_free_extends(a, b, r);
        lemma_undet_free_extends(a, b, f);
        lemma_without_fails_extends(a, b, f, g);
    }
}

/// What the rules of `minsol` and `without` see of a node.
enum Kind {
    Zero,
    One,
    Undet,
    Inner { header: HeaderId, low: NodeId, high: NodeId },
}

/// Looks at node `id` of a binary diagram.
fn kind(dd: &NodeTable<bool>, id: NodeId) -> (k: Kind)
    requires
        dd@.wf(),
        dd@.binary(),
        dd@.valid(id),
    ensures
        match k {
            Kind::Zero => dd@.nodes[id as int] == NodeView::Terminal(false),
            Kind::One => dd@.nodes[id as int] == NodeView::Terminal(true),
            Kind::Undet => dd@.nodes[id as int] is Undet,
            Kind::Inner { header, low, high } => {
                &&& dd@.nodes[id as int] == (NodeView::<bool>::NonTerminal {
                    header,
                    children: seq![low, high],
                })
                &&& header < dd@.headers.len()
                &&& dd@.valid(low) && dd@.valid(high)
                &&& dd@.rank(low) < dd@.rank(id)
                &&& dd@.rank(high) < dd@.rank(id)
                &&& dd@.rank(id) == dd@.headers[header as int].level + 1
            },
        },
{
    match dd.get_node(id).unwrap() {
        Node::Terminal(v) => {
            if *v {
                Kind::One
            } else {
                Kind::Zero
            }
        },
        Node::Undet => Kind::Undet,
        Node::NonTerminal { header, children } => {
            proof {
                assert(dd@.node_linked(id));
                assert(dd@.node_descends(id));
                assert(dd@.is_nonterminal(id));
                assert(dd@.children(id) == children@);
                assert(dd@.valid(children@[0]) && dd@.valid(children@[1]));
                assert(dd@.rank(children@[0]) < dd@.rank(id));
                assert(dd@.rank(children@[1]) < dd@.rank(id));
                assert(children@ =~= seq![children@[0], children@[1]]);
            }
            Kind::Inner { header: *header, low: children[0], high: children[1] }
        },
    }
}

/// The node that decides on `h` between `low` and `high`.
fn mk(dd: &mut NodeTable<bool>, h: HeaderId, low: NodeId, high: NodeId) -> (r: NodeId)
    requires
        old(dd).wf(),
        old(dd)@.binary(),
        old(dd)@.has_constants(),
        h < old(dd)@.headers.len(),
        old(dd)@.valid(low),
        old(dd)@.valid(high),
        old(dd)@.rank(low) <= old(dd)@.headers[h as int].level,
        old(dd)@.rank(high) <= old(dd)@.headers[h as int].level,
    ensures
        final(dd).wf(),
        final(dd)@.binary(),
        final(dd)@.has_constants(),
        old(dd)@.extended_by(final(dd)@),
        hash_consed(old(dd)@) ==> hash_consed(final(dd)@),
        final(dd)@.valid(r),
        is_mk(final(dd)@, h, low, high, r),
        final(dd)@.rank(r) <= old(dd)@.headers[h as int].level + 1,
        old(dd)@.undet_free(low) && old(dd)@.undet_free(high) ==> final(dd)@.undet_free(r),
{
    let mut children: Vec<NodeId> = Vec::new();
    children.push(low);
    children.push(high);
    assert(children@ =~= seq![low, high]);
    let r = dd.create_node(h, children.as_slice());
    proof {
        let a = old(dd)@;
        let b = dd@;
        lemma_extended(a, b);
        lemma_undet_free_extends(a, b, low);
        lemma_undet_free_extends(a, b, high);
        if low == high {
            assert(crate::table::all_same(children@));
        } else {
            assert(!crate::table::all_same(children@)) by {
                if crate::table::all_same(children@) {
                    assert(children@[1] == children@[0]);
                }
            }
            assert(b.is_node(r, h, children@));
            assert(b.is_nonterminal(r));
            assert(b.children(r) == children@);
            if a.undet_free(low) && a.undet_free(high) {
                assert(b.node_descends(r));
                assert(b.children(r)[0] == low && b.children(r)[1] == high);
                lemma_undet_free_binary(b, r);
            }
        }
    }
    r
}

/// The memo of `without` stays in order when the table grows.
pub proof fn lemma_without_memo_extends(
    a: TableView<bool>,
    b: TableView<bool>,
    cache2: Map<u128, NodeId>,
)
    requires
        a.wf(),
        a.extended_by(b),
        without_memo_ok(a, cache2),
    ensures
        without_memo_ok(b, cache2),
{
    lemma_memos_extend(a, b, Map::empty(), cache2);
}

/// The memo of `minsol` stays in order when the table grows.
pub proof fn lemma_minsol_memo_extends(
    a: TableView<bool>,
    b: TableView<bool>,
    cache1: Map<NodeId, NodeId>,
)
    requires
        a.wf(),
        a.extended_by(b),
        minsol_memo_ok(a, cache1),
    ensures
        minsol_memo_ok(b, cache1),
{
    lemma_memos_extend(a, b, cache1, Map::empty());
}

/// In the table `d`, grown from `a`, `v` decides on `h` between `a0`
/// without `b0` and `a1` without `b1`.
pub open spec fn both_done(
    a: TableView<bool>,
    d: TableView<bool>,
    h: HeaderId,
    a0: NodeId,
    b0: NodeId,
    a1: NodeId,
    b1: NodeId,
    v: NodeId,
) -> bool {
    &&& d.valid(v)
    &&& d.rank(v) <= a.headers[h as int].level + 1
    &&& (a.undet_free(a0) && a.undet_free(a1) ==> d.undet_free(v))
    &&& exists|lo: NodeId, hi: NodeId|
        is_without(d, a0, b0, lo) && is_without(d, a1, b1, hi) && #[trigger] is_mk(
            d,
            h,
            lo,
            hi,
            v,
        )
}

/// The node that decides on `h` between `a0` without `b0` and `a1`
/// without `b1`.
fn without_both(
    dd: &mut NodeTable<bool>,
    h: HeaderId,
    a0: NodeId,
    b0: NodeId,
    a1: NodeId,
    b1: NodeId,
    cache: &mut HashMap<u128, NodeId>,
    Ghost(bound): Ghost<nat>,
) -> (r: Result<NodeId, Error>)
    requires
        old(dd).wf(),
        old(dd)@.binary(),
        old(dd)@.has_constants(),
        old(dd)@.valid(a0) && old(dd)@.valid(b0) && old(dd)@.valid(a1) && old(dd)@.valid(b1),
        h < old(dd)@.headers.len(),
        max_rank(old(dd)@, a0, b0) <= old(dd)@.headers[h as int].level,
        max_rank(old(dd)@, a1, b1) <= old(dd)@.headers[h as int].level,
        old(dd)@.rank(a0) + old(dd)@.rank(b0) < bound,
        old(dd)@.rank(a1) + old(dd)@.rank(b1) < bound,
        without_memo_ok(old(dd)@, old(cache)@),
    ensures
        final(dd).wf(),
        final(dd)@.binary(),
        final(dd)@.has_constants(),
        old(dd)@.extended_by(final(dd)@),
        hash_consed(old(dd)@) ==> hash_consed(final(dd)@),
        without_memo_ok(final(dd)@, final(cache)@),
        memo_kept(old(cache)@, final(cache)@),
        match r {
            Ok(v) => {
                &&& both_done(old(dd)@, final(dd)@, h, a0, b0, a1, b1, v)
                &&& !without_fails(old(dd)@, a0, b0)
                &&& !without_fails(old(dd)@, a1, b1)
            },
            Err(e) => {
                &&& e == Error::InvalidDiagram
                &&& (without_fails(old(dd)@, a0, b0) || without_fails(old(dd)@, a1, b1))
            },
        },
    decreases bound, 0int,
{
    let ghost a = dd@;
    let ghost held = cache@;
    let low = match without(dd, a0, b0, cache) {
        Ok(v) => v,
        Err(e) => {
            return Err(e);
        },
    };
    let ghost b = dd@;
    let ghost then = cache@;
    proof {
        lemma_extended(a, b);
        lemma_undet_free_extends(a, b, a1);
        lemma_undet_free_extends(a, b, b1);
        lemma_without_fails_extends(a, b, a1, b1);
    }
    let high = match without(dd, a1, b1, cache) {
        Ok(v) => v,
        Err(e) => {
            proof {
                lemma_memo_kept_twice(held, then, cache@);
            }
            return Err(e);
        },
    };
    let ghost c = dd@;
    proof {
        lemma_memo_kept_twice(held, then, cache@);
        lemma_extended(b, c);
        lemma_extended(a, c);
        lemma_undet_free_extends(b, c, low);
    }
    let r = mk(dd, h, low, high);
    proof {
        let d = dd@;
        lemma_extended(c, d);
        lemma_extended(a, d);
        lemma_extended(b, d);
        lemma_without_extends(b, c, a0, b0, low);
        lemma_without_extends(c, d, a0, b0, low);
        lemma_without_extends(c, d, a1, b1, high);
        lemma_without_memo_extends(c, d, cache@);
        assert(is_mk(d, h, low, high, r));
        assert(both_done(a, d, h, a0, b0, a1, b1, r));
    }
    Ok(r)
}

/// Enters the node of the pair `(f, g)` into the memo; the other entries stay.
fn remember(
    dd: &NodeTable<bool>,
    cache: &mut HashMap<u128, NodeId>,
    f: NodeId,
    g: NodeId,
    node: NodeId,
)
    requires
        without_memo_ok(dd@, old(cache)@),
        dd@.valid(node),
        is_without(dd@, f, g, node),
        dd@.rank(node) <= max_rank(dd@, f, g),
        dd@.undet_free(f) ==> dd@.undet_free(node),
        !without_fails(dd@, f, g),
    ensures
        final(cache)@ == old(cache)@.insert(pair_key(f, g), node),
        without_memo_ok(dd@, final(cache)@),
{
    broadcast use vstd::std_specs::hash::group_hash_axioms;

    let key: u128 = (f as u128) * 0x1_0000_0000_0000_0000u128 + (g as u128);
    assert(key == pair_key(f, g));
    cache.insert(key, node);
    proof {
        assert forall|f2: NodeId, g2: NodeId| #[trigger]
            cache@.contains_key(pair_key(f2, g2)) implies {
            let r = cache@[pair_key(f2, g2)];
            &&& dd@.valid(r)
            &&& is_without(dd@, f2, g2, r)
            &&& dd@.rank(r) <= max_rank(dd@, f2, g2)
            &&& (dd@.undet_free(f2) ==> dd@.undet_free(r))
            &&& !without_fails(dd@, f2, g2)
        } by {
            if pair_key(f2, g2) == key {
                lemma_pair_key_injective(f, g, f2, g2);
            } else {
                assert(old(cache)@.contains_key(pair_key(f2, g2)));
            }
        }
    }
}

/// What the rules give at once: nothing is left of false; without
/// false all of `f` is left; without true nothing is left; a node
/// without itself is false. The second needs the nodes shared, where
/// `f` is itself a terminal false.
pub proof fn lemma_without_identities(dd: TableView<bool>, f: NodeId, r: NodeId)
    requires
        dd.wf(),
        dd.binary(),
        dd.has_constants(),
        dd.valid(f),
    ensures
        is_without(dd, ZERO, f, r) <==> r == ZERO,
        hash_consed(dd) ==> (is_without(dd, f, ZERO, r) <==> r == f),
        is_without(dd, f, ONE, r) <==> r == ZERO,
        dd.is_nonterminal(f) ==> (is_without(dd, f, f, r) <==> r == ZERO),
{
    if hash_consed(dd) {
        lemma_constants_unique(dd, f);
    }
    if dd.is_nonterminal(f) {
        assert(dd.node_linked(f));
        assert(dd.node_descends(f));
        let fc = dd.children(f);
        assert(fc.len() == 2);
        assert(dd.rank(fc[0]) < dd.rank(f));
        assert(dd.rank(fc[1]) < dd.rank(f));
    }
}

/// The error with which `without` fails on the pair `(f, g)`.
pub open spec fn without_refusal(dd: TableView<bool>, f: NodeId, g: NodeId) -> Error {
    if dd.valid(f) && dd.valid(g) {
        Error::InvalidDiagram
    } else {
        Error::MissingNode
    }
}

/// In a table whose nodes are shared, the terminal false is node `ZERO`
/// and the terminal true is node `ONE`, and no other node.
pub proof fn lemma_constants_unique(dd: TableView<bool>, id: NodeId)
    requires
        hash_consed(dd),
        dd.has_constants(),
        dd.valid(id),
    ensures
        dd.nodes[id as int] == NodeView::Terminal(false) <==> id == ZERO,
        dd.nodes[id as int] == NodeView::Terminal(true) <==> id == ONE,
{
    if dd.nodes[id as int] == NodeView::Terminal(false) {
        lemma_shared_one(dd, id, ZERO);
    }
    if dd.nodes[id as int] == NodeView::Terminal(true) {
        lemma_shared_one(dd, id, ONE);
    }
}

/// `f` without `g`: the node of the solutions of `f` that no solution of
/// `g` is part of, by the rules of [`is_without`]. Fails with
/// `MissingNode` where the table does not hold `f` or `g`, and with
/// `InvalidDiagram` where the rules meet an undetermined node that none
/// of them covers, as [`without_fails`] says.
/// `cache` is the memo of this table, keyed by [`pair_key`]: afterwards it
/// holds the result under the key of the pair, and what it held stays.
#[verifier::rlimit(50)]
pub fn without(
    dd: &mut NodeTable<bool>,
    f: NodeId,
    g: NodeId,
    cache: &mut HashMap<u128, NodeId>,
) -> (r: Result<NodeId, Error>)
    requires
        old(dd).wf(),
        old(dd)@.binary(),
        old(dd)@.has_constants(),
        without_memo_ok(old(dd)@, old(cache)@),
    ensures
        final(dd).wf(),
        final(dd)@.binary(),
        final(dd)@.has_constants(),
        old(dd)@.extended_by(final(dd)@),
        hash_consed(old(dd)@) ==> hash_consed(final(dd)@),
        without_memo_ok(final(dd)@, final(cache)@),
        memo_kept(old(cache)@, final(cache)@),
        match r {
            Ok(v) => {
                &&& old(dd)@.valid(f)
                &&& old(dd)@.valid(g)
                &&& final(dd)@.valid(v)
                &&& is_without(final(dd)@, f, g, v)
                &&& final(dd)@.rank(v) <= max_rank(old(dd)@, f, g)
                &&& (old(dd)@.undet_free(f) ==> final(dd)@.undet_free(v))
                &&& !without_fails(old(dd)@, f, g)
                &&& final(cache)@.contains_key(pair_key(f, g))
                &&& final(cache)@[pair_key(f, g)] == v
            },
            Err(e) => e == without_refusal(old(dd)@, f, g) && (without_fails(old(dd)@, f, g)
                || !old(dd)@.valid(f) || !old(dd)@.valid(g)),
        },
    decreases old(dd)@.rank(f) + old(dd)@.rank(g), 1int,
{
    broadcast use vstd::std_specs::hash::group_hash_axioms;

    let ghost held = cache@;
    proof {
        lemma_memo_kept_same(held);
    }
    if f >= dd.size().1 || g >= dd.size().1 {
        assert(dd@.extended_by(dd@));
        return Err(Error::MissingNode);
    }
    let key: u128 = (f as u128) * 0x1_0000_0000_0000_0000u128 + (g as u128);
    assert(key == pair_key(f, g));
    if let Some(x) = cache.get(&key) {
        return Ok(*x);
    }
    let ghost a = dd@;
    let ghost bound = a.rank(f) + a.rank(g);
    let kf = kind(dd, f);
    let kg = kind(dd, g);
    let node = match (kf, kg) {
        (Kind::Zero, _) => dd.zero(),
        (_, Kind::Zero) => f,
        (_, Kind::One) => dd.zero(),
        (Kind::One, Kind::Inner { header, low: g0, high: g1 }) => {
            proof {
                lemma_undet_free_binary(a, g);
            }
            match without_both(dd, header, f, g0, f, g1, cache, Ghost(bound)) {
                Ok(v) => v,
                Err(e) => {
                    return Err(e);
                },
            }
        },
        (Kind::Inner { header: fh, low: f0, high: f1 }, Kind::Inner { header: gh, low: g0, high: g1 }) => {
            proof {
                lemma_undet_free_binary(a, f);
                lemma_undet_free_binary(a, g);
            }
            if f == g {
                dd.zero()
            } else {
                let lf = dd.level(f).unwrap();
                let lg = dd.level(g).unwrap();
                if lf > lg {
                    match without_both(dd, fh, f0, g, f1, g, cache, Ghost(bound)) {
                        Ok(v) => v,
                        Err(e) => {
                            return Err(e);
                        },
                    }
                } else if lf < lg {
                    match without(dd, f, g0, cache) {
                        Ok(v) => v,
                        Err(e) => {
                            return Err(e);
                        },
                    }
                } else {
                    match without_both(dd, fh, f0, g0, f1, g1, cache, Ghost(bound)) {
                        Ok(v) => v,
                        Err(e) => {
                            return Err(e);
                        },
                    }
                }
            }
        },
        _ => {
            return Err(Error::InvalidDiagram);
        },
    };
    proof {
        lemma_extended(a, dd@);
        lemma_undet_free_extends(a, dd@, f);
        lemma_without_fails_extends(a, dd@, f, g);
        lemma_memo_kept_entry(held, cache@, key, node);
    }
    remember(dd, cache, f, g, node);
    Ok(node)
}

/// Two pairs with one key are one pair.
pub proof fn lemma_pair_key_injective(f: NodeId, g: NodeId, f2: NodeId, g2: NodeId)
    requires
        pair_key(f, g) == pair_key(f2, g2),
    ensures
        f == f2,
        g == g2,
{
    assert(f as u128 * 0x1_0000_0000_0000_0000u128 + g as u128 == f2 as u128
        * 0x1_0000_0000_0000_0000u128 + g2 as u128);
    assert(f == f2 && g == g2) by (nonlinear_arith)
        requires
            f as u128 * 0x1_0000_0000_0000_0000u128 + g as u128 == f2 as u128
                * 0x1_0000_0000_0000_0000u128 + g2 as u128,
            0 <= g < 0x1_0000_0000_0000_0000,
            0 <= g2 < 0x1_0000_0000_0000_0000,
            0 <= f,
            0 <= f2,
    ;
}

/// Enters the minimal-solution node of `f` into the memo; the other entries stay.
fn remember_minsol(
    dd: &NodeTable<bool>,
    cache1: &mut HashMap<NodeId, NodeId>,
    f: NodeId,
    node: NodeId,
)
    requires
        minsol_memo_ok(dd@, old(cache1)@),
        dd@.valid(node),
        is_minsol(dd@, f, node),
        dd@.rank(node) <= dd@.rank(f),
        dd@.undet_free(node),
        dd@.undet_free(f),
    ensures
        final(cache1)@ == old(cache1)@.insert(f, node),
        minsol_memo_ok(dd@, final(cache1)@),
{
    broadcast use vstd::std_specs::hash::group_hash_axioms;

    cache1.insert(f, node);
    proof {
        assert forall|k: NodeId| #[trigger] cache1@.contains_key(k) implies dd@.valid(cache1@[k])
            && is_minsol(dd@, k, cache1@[k]) && dd@.rank(cache1@[k]) <= dd@.rank(k)
            && dd@.undet_free(cache1@[k]) && dd@.undet_free(k) by {
            if k != f {
                assert(old(cache1)@.contains_key(k));
            }
        }
    }
}

/// What `minsol` has brought about where it returned `v` for `node`, in
/// the table `d` grown from `a`.
pub open spec fn minsol_done(a: TableView<bool>, d: TableView<bool>, node: NodeId, v: NodeId) -> bool {
    &&& d.valid(v)
    &&& is_minsol(d, node, v)
    &&& d.rank(v) <= a.rank(node)
    &&& d.undet_free(v)
}

/// The node of the minimal solutions of `node`: the solutions of which no
/// part is a solution, by the rules of [`is_minsol`]. New nodes are made
/// in `dd`; what it held stays. Fails with `MissingNode` for a node that
/// the table does not hold and with `InvalidDiagram` where an
/// undetermined node can be reached from `node`.
/// `cache1` and `cache2` are the memos of `minsol` and `without` for
/// this table: afterwards `cache1` holds the result under `node`, and what
/// the two held stays. For a terminal no node is made.
#[verifier::rlimit(50)]
pub fn minsol(
    dd: &mut NodeTable<bool>,
    node: NodeId,
    cache1: &mut HashMap<NodeId, NodeId>,
    cache2: &mut HashMap<u128, NodeId>,
) -> (r: Result<NodeId, Error>)
    requires
        old(dd).wf(),
        old(dd)@.binary(),
        old(dd)@.has_constants(),
        minsol_memo_ok(old(dd)@, old(cache1)@),
        without_memo_ok(old(dd)@, old(cache2)@),
    ensures
        final(dd).wf(),
        final(dd)@.binary(),
        final(dd)@.has_constants(),
        old(dd)@.extended_by(final(dd)@),
        hash_consed(old(dd)@) ==> hash_consed(final(dd)@),
        minsol_memo_ok(final(dd)@, final(cache1)@),
        without_memo_ok(final(dd)@, final(cache2)@),
        memo_kept(old(cache1)@, final(cache1)@),
        memo_kept(old(cache2)@, final(cache2)@),
        !old(dd)@.is_nonterminal(node) ==> final(dd)@ == old(dd)@,
        match r {
            Ok(v) => {
                &&& old(dd)@.undet_free(node)
                &&& minsol_done(old(dd)@, final(dd)@, node, v)
                &&& final(cache1)@.contains_key(node)
                &&& final(cache1)@[node] == v
            },
            Err(e) => !old(dd)@.undet_free(node) && e == refusal(old(dd)@, node),
        },
    decreases old(dd)@.rank(node),
{
    broadcast use vstd::std_specs::hash::group_hash_axioms;

    let ghost a = dd@;
    let ghost held1 = cache1@;
    let ghost held2 = cache2@;
    proof {
        lemma_memo_kept_same(held1);
        lemma_memo_kept_same(held2);
    }
    if node >= dd.size().1 {
        return Err(Error::MissingNode);
    }
    if let Some(x) = cache1.get(&node) {
        assert(a.extended_by(a));
        return Ok(*x);
    }
    let result = match kind(dd, node) {
        Kind::Zero => dd.zero(),
        Kind::One => dd.one(),
        Kind::Undet => {
            assert(a.extended_by(a));
            return Err(Error::InvalidDiagram);
        },
        Kind::Inner { header, low: f0, high: f1 } => {
            proof {
                lemma_undet_free_binary(a, node);
            }
            let tmp = match minsol(dd, f1, cache1, cache2) {
                Ok(v) => v,
                Err(e) => {
                    return Err(e);
                },
            };
            let ghost b = dd@;
            let ghost then1 = cache1@;
            let ghost then2 = cache2@;
            proof {
                lemma_extended(a, b);
                lemma_undet_free_extends(a, b, f0);
                if b.undet_free(f0) {
                    lemma_without_never_fails(b, tmp, f0);
                }
            }
            let high = match without(dd, tmp, f0, cache2) {
                Ok(v) => v,
                Err(e) => {
                    proof {
                        lemma_extended(b, dd@);
                        lemma_minsol_memo_extends(b, dd@, cache1@);
                        lemma_memo_kept_twice(held2, then2, cache2@);
                    }
                    return Err(e);
                },
            };
            let ghost c = dd@;
            let ghost later2 = cache2@;
            proof {
                lemma_memo_kept_twice(held2, then2, later2);
                lemma_extended(b, c);
                lemma_extended(a, c);
                lemma_minsol_memo_extends(b, c, cache1@);
                lemma_undet_free_extends(a, c, f0);
            }
            let low = match minsol(dd, f0, cache1, cache2) {
                Ok(v) => v,
                Err(e) => {
                    proof {
                        lemma_memo_kept_twice(held1, then1, cache1@);
                        lemma_memo_kept_twice(held2, later2, cache2@);
                    }
                    return Err(e);
                },
            };
            let ghost d = dd@;
            proof {
                lemma_memo_kept_twice(held1, then1, cache1@);
                lemma_memo_kept_twice(held2, later2, cache2@);
                lemma_extended(c, d);
                lemma_extended(a, d);
                lemma_extended(b, d);
                lemma_undet_free_extends(c, d, high);
            }
            let r = mk(dd, header, low, high);
            proof {
                let e = dd@;
                lemma_extended(d, e);
                lemma_extended(a, e);
                lemma_extended(b, e);
                lemma_extended(c, e);
                lemma_memos_extend(d, e, cache1@, cache2@);
                lemma_minsol_extends(b, c, f1, tmp);
                lemma_minsol_extends(c, d, f1, tmp);
                lemma_minsol_extends(d, e, f1, tmp);
                lemma_without_extends(c, d, tmp, f0, high);
                lemma_without_extends(d, e, tmp, f0, high);
                lemma_minsol_extends(d, e, f0, low);
                assert(mk3(e, header, low, tmp, high, r));
                assert(is_minsol(e, node, r));
            }
            r
        },
    };
    proof {
        lemma_extended(a, dd@);
        lemma_undet_free_extends(a, dd@, node);
        assert(minsol_done(a, dd@, node, result));
        lemma_memo_kept_entry(held1, cache1@, node, result);
    }
    remember_minsol(dd, cache1, node, result);
    Ok(result)
}

} // verus!
