use crate::bdd_minsol::{lemma_pair_key_injective, pair_key};
use crate::common::{
    lemma_memo_kept_entry, lemma_memo_kept_same, lemma_memo_kept_twice, memo_kept, Error, HeaderId,
    Leaf, NodeId,
};
use crate::mtmdd2::{MDDValue, MtMdd2Manager};
use crate::table::{
    all_same, hash_consed, lemma_extended, Node, NodeTable, NodeView, TableView,
};
use std::collections::HashMap;
use vstd::prelude::*;

verus! {

/// The undetermined terminal of a table: it stands for "no solution".
pub const UNDET: NodeId = 0;

/// What becomes of a terminal `f` without a node `g` that decides on a
/// variable.
#[derive(Clone, Copy, Debug, PartialEq, Eq, Structural)]
pub enum Over {
    /// The variable of `g` is decided, and `f` goes without each child.
    Split,
    /// All of `g` is left.
    Keep,
    /// Nothing is left.
    Drop,
}

/// How the terminals of a diagram count in the search for minimal
/// solutions. A diagram with value terminals keeps every terminal and
/// lets differing values stand side by side; a diagram with Boolean
/// terminals reads false as "no solution".
pub trait MinsolRules: Leaf {
    /// A terminal with this value is a solution.
    spec fn survives_spec(self) -> bool;

    /// Beside a solution that ends in `self`, one that ends in `other`
    /// is still minimal.
    spec fn beats_spec(self, other: Self) -> bool;

    /// A node without a terminal of this value is taken apart; else
    /// nothing is left of it.
    spec fn under_spec(self) -> bool;

    /// What becomes of a terminal with this value without a node.
    spec fn over_spec(self) -> Over;

    fn survives(&self) -> (b: bool)
        ensures
            b == self.survives_spec(),
    ;

    fn beats(&self, other: &Self) -> (b: bool)
        ensures
            b == self.beats_spec(*other),
    ;

    fn under(&self) -> (b: bool)
        ensures
            b == self.under_spec(),
    ;

    fn over(&self) -> (o: Over)
        ensures
            o == self.over_spec(),
    ;
}

impl MinsolRules for bool {
    open spec fn survives_spec(self) -> bool {
        self
    }

    open spec fn beats_spec(self, other: Self) -> bool {
        !self
    }

    open spec fn under_spec(self) -> bool {
        self
    }

    open spec fn over_spec(self) -> Over {
        if self {
            Over::Drop
        } else {
            Over::Keep
        }
    }

    fn survives(&self) -> (b: bool) {
        *self
    }

    fn beats(&self, other: &Self) -> (b: bool) {
        !*self
    }

    fn under(&self) -> (b: bool) {
        *self
    }

    fn over(&self) -> (o: Over) {
        if *self {
            Over::Drop
        } else {
            Over::Keep
        }
    }
}

impl MinsolRules for i32 {
    open spec fn survives_spec(self) -> bool {
        true
    }

    open spec fn beats_spec(self, other: Self) -> bool {
        self != other
    }

    open spec fn under_spec(self) -> bool {
        true
    }

    open spec fn over_spec(self) -> Over {
        Over::Split
    }

    fn survives(&self) -> (b: bool) {
        true
    }

    fn beats(&self, other: &Self) -> (b: bool) {
        *self != *other
    }

    fn under(&self) -> (b: bool) {
        true
    }

    fn over(&self) -> (o: Over) {
        Over::Split
    }
}

impl MinsolRules for i64 {
    open spec fn survives_spec(self) -> bool {
        true
    }

    open spec fn beats_spec(self, other: Self) -> bool {
        self != other
    }

    open spec fn under_spec(self) -> bool {
        true
    }

    open spec fn over_spec(self) -> Over {
        Over::Split
    }

    fn survives(&self) -> (b: bool) {
        true
    }

    fn beats(&self, other: &Self) -> (b: bool) {
        *self != *other
    }

    fn under(&self) -> (b: bool) {
        true
    }

    fn over(&self) -> (o: Over) {
        Over::Split
    }
}

/// `r` is the node that decides on `h` among `rs`: the one node where
/// all of `rs` are one, a node of the table with that header and these
/// children otherwise.
pub open spec fn is_mk_n<L>(dd: TableView<L>, h: HeaderId, rs: Seq<NodeId>, r: NodeId) -> bool {
    if all_same(rs) {
        rs.len() > 0 && r == rs[0]
    } else {
        dd.is_node(r, h, rs)
    }
}

pub open spec fn rank_sum<L>(dd: TableView<L>, f: NodeId, g: NodeId) -> nat {
    dd.rank(f) + dd.rank(g)
}

/// What is to be done for `g` without `f`.
pub enum Rule {
    /// The result is this node.
    Give(NodeId),
    /// The result is that of this pair.
    Descend(NodeId, NodeId),
    /// The result decides on the header among the results of the pairs
    /// that the two sequences make, place by place.
    Split(HeaderId, Seq<NodeId>, Seq<NodeId>),
}

/// The rule for `g` without `f`, the first that applies:
/// beside an undetermined `f` all of `g` is left; of an undetermined `g`
/// nothing is left; of two terminals `g` is left where the value of `f`
/// lets it stand; a node `f` beside a terminal `g` is taken apart, child
/// by child, where the value of `g` asks for it; a terminal `f` beside a
/// node `g` goes by [`MinsolRules::over_spec`]; of two nodes, where `f`
/// stands higher, its first child takes its place; where `g` stands
/// higher, `g` is taken apart; at one level child goes beside child.
pub open spec fn without_rule<L: MinsolRules>(dd: TableView<L>, f: NodeId, g: NodeId) -> Rule {
    match (dd.nodes[f as int], dd.nodes[g as int]) {
        (NodeView::Undet, _) => Rule::Give(g),
        (_, NodeView::Undet) => Rule::Give(UNDET),
        (NodeView::Terminal(a), NodeView::Terminal(b)) => Rule::Give(
            if a.beats_spec(b) {
                g
            } else {
                UNDET
            },
        ),
        (NodeView::NonTerminal { header, children }, NodeView::Terminal(b)) => {
            if b.under_spec() {
                Rule::Split(header, children, Seq::new(children.len(), |i: int| g))
            } else {
                Rule::Give(UNDET)
            }
        },
        (NodeView::Terminal(a), NodeView::NonTerminal { header, children }) => {
            match a.over_spec() {
                Over::Split => Rule::Split(header, Seq::new(children.len(), |i: int| f), children),
                Over::Keep => Rule::Give(g),
                Over::Drop => Rule::Give(UNDET),
            }
        },
        (
            NodeView::NonTerminal { header: fh, children: fc },
            NodeView::NonTerminal { header: gh, children: gc },
        ) => {
            if dd.rank(f) > dd.rank(g) {
                Rule::Descend(fc[0], g)
            } else if dd.rank(f) < dd.rank(g) {
                Rule::Split(gh, Seq::new(gc.len(), |i: int| f), gc)
            } else {
                Rule::Split(fh, fc, gc)
            }
        },
    }
}

/// `r` is `g` without `f`: what is left of the minimal solutions `g`
/// beside the diagram `f`, by the rule of [`without_rule`].
pub open spec fn is_without_n<L: MinsolRules>(
    dd: TableView<L>,
    f: NodeId,
    g: NodeId,
    r: NodeId,
) -> bool
    decreases rank_sum(dd, f, g), 1nat, 0nat,
{
    if !dd.valid(f) || !dd.valid(g) {
        false
    } else {
        match without_rule(dd, f, g) {
            Rule::Give(x) => r == x,
            Rule::Descend(f2, g2) => rank_sum(dd, f2, g2) < rank_sum(dd, f, g) && is_without_n(
                dd,
                f2,
                g2,
                r,
            ),
            Rule::Split(h, xs, ys) => exists|rs: Seq<NodeId>|
                rs.len() == xs.len() && xs.len() == ys.len() && is_without_upto(
                    dd,
                    xs,
                    ys,
                    rs,
                    xs.len(),
                    rank_sum(dd, f, g),
                ) && #[trigger] is_mk_n(dd, h, rs, r),
        }
    }
}

/// Each of the first `n` of `rs` is a node of the table: the node of
/// `ys` without the node of `xs` at its place, a pair that stands lower
/// than `bound`.
pub open spec fn is_without_upto<L: MinsolRules>(
    dd: TableView<L>,
    xs: Seq<NodeId>,
    ys: Seq<NodeId>,
    rs: Seq<NodeId>,
    n: nat,
    bound: nat,
) -> bool
    decreases bound, 0nat, n,
{
    if n == 0 {
        true
    } else {
        let i = n - 1;
        &&& is_without_upto(dd, xs, ys, rs, (n - 1) as nat, bound)
        &&& i < xs.len() && i < ys.len() && i < rs.len()
        &&& rank_sum(dd, xs[i], ys[i]) < bound
        &&& dd.valid(rs[i])
        &&& is_without_n(dd, xs[i], ys[i], rs[i])
    }
}

/// A node that `is_minsol_n` names on the way.
pub open spec fn on_way<L>(dd: TableView<L>, tmp: NodeId) -> bool {
    dd.valid(tmp)
}

/// `r` holds the minimal solutions of `f`. A terminal stays where its
/// value is a solution and becomes the undetermined terminal otherwise;
/// a node keeps its variable, with the minimal solutions of its first
/// child under the first value and, under each further value, the
/// minimal solutions of that child without the child before it.
pub open spec fn is_minsol_n<L: MinsolRules>(dd: TableView<L>, f: NodeId, r: NodeId) -> bool
    decreases dd.rank(f), 1nat, 0nat,
{
    if !dd.valid(f) {
        false
    } else {
        match dd.nodes[f as int] {
            NodeView::Terminal(a) => r == if a.survives_spec() {
                f
            } else {
                UNDET
            },
            NodeView::Undet => r == UNDET,
            NodeView::NonTerminal { header, children } => exists|rs: Seq<NodeId>|
                rs.len() == children.len() && is_minsol_upto(dd, f, rs, children.len())
                    && #[trigger] is_mk_n(dd, header, rs, r),
        }
    }
}

/// Each of the first `n` of `rs` is what `is_minsol_n` asks for at its
/// place among the children of `f`: the minimal solutions of the first
/// child, and for each further child its minimal solutions without the
/// child before it.
pub open spec fn is_minsol_upto<L: MinsolRules>(
    dd: TableView<L>,
    f: NodeId,
    rs: Seq<NodeId>,
    n: nat,
) -> bool
    decreases dd.rank(f), 0nat, n,
{
    if n == 0 {
        true
    } else {
        let i = n - 1;
        let children = dd.children(f);
        &&& is_minsol_upto(dd, f, rs, (n - 1) as nat)
        &&& i < children.len() && i < rs.len()
        &&& dd.rank(children[i]) < dd.rank(f)
        &&& dd.valid(rs[i])
        &&& if i == 0 {
            is_minsol_n(dd, children[i], rs[i])
        } else {
            exists|tmp: NodeId| #[trigger]
                on_way(dd, tmp) && is_minsol_n(dd, children[i], tmp) && is_without_n(
                    dd,
                    children[i - 1],
                    tmp,
                    rs[i],
                )
        }
    }
}

proof fn lemma_mk_n_extends<L>(a: TableView<L>, b: TableView<L>, h: HeaderId, rs: Seq<NodeId>, r: NodeId)
    requires
        a.extended_by(b),
        is_mk_n(a, h, rs, r),
    ensures
        is_mk_n(b, h, rs, r),
{
    lemma_extended(a, b);
}

/// The rule for a pair stays the same when the table grows.
proof fn lemma_rule_extends<L: MinsolRules>(a: TableView<L>, b: TableView<L>, f: NodeId, g: NodeId)
    requires
        a.extended_by(b),
        a.valid(f),
        a.valid(g),
    ensures
        without_rule(a, f, g) == without_rule(b, f, g),
        rank_sum(a, f, g) == rank_sum(b, f, g),
{
    lemma_extended(a, b);
}

/// What is without what stays so when the table grows.
pub proof fn lemma_without_n_extends<L: MinsolRules>(
    a: TableView<L>,
    b: TableView<L>,
    f: NodeId,
    g: NodeId,
    r: NodeId,
)
    requires
        a.wf(),
        a.extended_by(b),
        is_without_n(a, f, g, r),
    ensures
        is_without_n(b, f, g, r),
    decreases rank_sum(a, f, g), 1nat, 0nat,
{
    lemma_extended(a, b);
    lemma_rule_extends(a, b, f, g);
    match without_rule(a, f, g) {
        Rule::Give(x) => {},
        Rule::Descend(f2, g2) => {
            lemma_rule_valid(a, f, g);
            lemma_without_n_extends(a, b, f2, g2, r);
        },
        Rule::Split(h, xs, ys) => {
            let bound = rank_sum(a, f, g);
            let rs = choose|rs: Seq<NodeId>|
                rs.len() == xs.len() && xs.len() == ys.len() && is_without_upto(
                    a,
                    xs,
                    ys,
                    rs,
                    xs.len(),
                    bound,
                ) && #[trigger] is_mk_n(a, h, rs, r);
            lemma_rule_valid(a, f, g);
            lemma_without_upto_extends(a, b, xs, ys, rs, xs.len(), bound);
            lemma_mk_n_extends(a, b, h, rs, r);
        },
    }
}

pub proof fn lemma_without_upto_extends<L: MinsolRules>(
    a: TableView<L>,
    b: TableView<L>,
    xs: Seq<NodeId>,
    ys: Seq<NodeId>,
    rs: Seq<NodeId>,
    n: nat,
    bound: nat,
)
    requires
        a.wf(),
        a.extended_by(b),
        is_without_upto(a, xs, ys, rs, n, bound),
    ensures
        is_without_upto(b, xs, ys, rs, n, bound),
    decreases bound, 0nat, n,
{
    lemma_extended(a, b);
    if n > 0 {
        let i = n - 1;
        lemma_without_upto_extends(a, b, xs, ys, rs, (n - 1) as nat, bound);
        assert(is_without_n(a, xs[i], ys[i], rs[i]));
        assert(a.valid(xs[i]) && a.valid(ys[i]));
        lemma_without_n_extends(a, b, xs[i], ys[i], rs[i]);
    }
}

/// In a well formed table the pairs that a rule names are pairs of nodes
/// of the table, as many as the header has values, and each stands lower
/// than the pair that the rule is for and no higher than the header.
pub proof fn lemma_rule_valid<L: MinsolRules>(dd: TableView<L>, f: NodeId, g: NodeId)
    requires
        dd.wf(),
        dd.valid(f),
        dd.valid(g),
    ensures
        match without_rule(dd, f, g) {
            Rule::Give(x) => dd.valid(x) && dd.rank(x) <= dd.rank(g),
            Rule::Descend(f2, g2) => dd.valid(f2) && dd.valid(g2) && rank_sum(dd, f2, g2)
                < rank_sum(dd, f, g) && dd.rank(f2) < dd.rank(f) && g2 == g && dd.rank(g)
                < dd.rank(f),
            Rule::Split(h, xs, ys) => {
                &&& h < dd.headers.len()
                &&& xs.len() == ys.len()
                &&& xs.len() == dd.headers[h as int].edge_num
                &&& dd.headers[h as int].level + 1 == if dd.rank(f) >= dd.rank(g) {
                    dd.rank(f)
                } else {
                    dd.rank(g)
                }
                &&& forall|i: int|
                    0 <= i < xs.len() ==> dd.valid(#[trigger] xs[i]) && dd.valid(ys[i])
                        && rank_sum(dd, xs[i], ys[i]) < rank_sum(dd, f, g) && dd.rank(xs[i])
                        <= dd.headers[h as int].level && dd.rank(ys[i])
                        <= dd.headers[h as int].level
            },
        },
{
    assert(dd.node_linked(f) && dd.node_linked(g));
    assert(dd.node_descends(f) && dd.node_descends(g));
    assert(dd.valid(UNDET));
    match (dd.nodes[f as int], dd.nodes[g as int]) {
        (NodeView::NonTerminal { header, children }, NodeView::Terminal(b)) => {
            assert(dd.children(f) == children);
            assert forall|i: int| 0 <= i < children.len() implies dd.valid(#[trigger] children[i])
                && dd.rank(children[i]) < dd.rank(f) by {
                assert(dd.valid(dd.children(f)[i]));
                assert(dd.rank(dd.children(f)[i]) < dd.rank(f));
            }
        },
        (NodeView::Terminal(a), NodeView::NonTerminal { header, children }) => {
            assert(dd.children(g) == children);
            assert forall|i: int| 0 <= i < children.len() implies dd.valid(#[trigger] children[i])
                && dd.rank(children[i]) < dd.rank(g) by {
                assert(dd.valid(dd.children(g)[i]));
                assert(dd.rank(dd.children(g)[i]) < dd.rank(g));
            }
        },
        (
            NodeView::NonTerminal { header: fh, children: fc },
            NodeView::NonTerminal { header: gh, children: gc },
        ) => {
            assert(dd.children(f) == fc && dd.children(g) == gc);
            assert(fc.len() >= 2 && gc.len() >= 2);
            assert forall|i: int| 0 <= i < fc.len() implies dd.valid(#[trigger] fc[i]) && dd.rank(
                fc[i],
            ) < dd.rank(f) by {
                assert(dd.valid(dd.children(f)[i]));
                assert(dd.rank(dd.children(f)[i]) < dd.rank(f));
            }
            assert forall|i: int| 0 <= i < gc.len() implies dd.valid(#[trigger] gc[i]) && dd.rank(
                gc[i],
            ) < dd.rank(g) by {
                assert(dd.valid(dd.children(g)[i]));
                assert(dd.rank(dd.children(g)[i]) < dd.rank(g));
            }
            if dd.rank(f) == dd.rank(g) {
                if fh != gh {
                    assert(dd.headers[fh as int].level != dd.headers[gh as int].level);
                }
            }
        },
        _ => {},
    }
}

/// What holds the minimal solutions of what stays so when the table
/// grows.
pub proof fn lemma_minsol_n_extends<L: MinsolRules>(
    a: TableView<L>,
    b: TableView<L>,
    f: NodeId,
    r: NodeId,
)
    requires
        a.wf(),
        a.extended_by(b),
        is_minsol_n(a, f, r),
    ensures
        is_minsol_n(b, f, r),
    decreases a.rank(f), 1nat, 0nat,
{
    lemma_extended(a, b);
    assert(a.valid(f));
    match a.nodes[f as int] {
        NodeView::NonTerminal { header, children } => {
            assert(a.is_nonterminal(f));
            let rs = choose|rs: Seq<NodeId>|
                rs.len() == children.len() && is_minsol_upto(a, f, rs, children.len())
                    && #[trigger] is_mk_n(a, header, rs, r);
            lemma_minsol_upto_extends(a, b, f, rs, children.len());
            lemma_mk_n_extends(a, b, header, rs, r);
        },
        _ => {},
    }
}

pub proof fn lemma_minsol_upto_extends<L: MinsolRules>(
    a: TableView<L>,
    b: TableView<L>,
    f: NodeId,
    rs: Seq<NodeId>,
    n: nat,
)
    requires
        a.wf(),
        a.extended_by(b),
        a.is_nonterminal(f),
        is_minsol_upto(a, f, rs, n),
    ensures
        is_minsol_upto(b, f, rs, n),
    decreases a.rank(f), 0nat, n,
{
    lemma_extended(a, b);
    if n > 0 {
        let i = n - 1;
        let children = a.children(f);
        assert(b.children(f) == children);
        assert(a.node_linked(f));
        lemma_minsol_upto_extends(a, b, f, rs, (n - 1) as nat);
        assert(a.valid(children[i]));
        if i == 0 {
            lemma_minsol_n_extends(a, b, children[i], rs[i]);
        } else {
            let tmp = choose|tmp: NodeId| #[trigger]
                on_way(a, tmp) && is_minsol_n(a, children[i], tmp) && is_without_n(
                    a,
                    children[i - 1],
                    tmp,
                    rs[i],
                );
            lemma_minsol_n_extends(a, b, children[i], tmp);
            lemma_without_n_extends(a, b, children[i - 1], tmp, rs[i]);
            assert(on_way(b, tmp));
        }
    }
}

pub open spec fn higher<L>(dd: TableView<L>, f: NodeId, g: NodeId) -> nat {
    if dd.rank(f) >= dd.rank(g) {
        dd.rank(f)
    } else {
        dd.rank(g)
    }
}

/// A memo of `minsol_n`: each entry is the minimal-solution node of its
/// key, and no higher than the key.
pub open spec fn minsol_n_memo_ok<L: MinsolRules>(dd: TableView<L>, cache: Map<NodeId, NodeId>) -> bool {
    forall|k: NodeId| #[trigger]
        cache.contains_key(k) ==> dd.valid(cache[k]) && is_minsol_n(dd, k, cache[k]) && dd.rank(
            cache[k],
        ) <= dd.rank(k)
}

/// A memo of `without_n`: the entry under the key of a pair is that
/// pair's node, no higher than the higher of the two.
pub open spec fn without_n_memo_ok<L: MinsolRules>(dd: TableView<L>, cache: Map<u128, NodeId>) -> bool {
    forall|f: NodeId, g: NodeId| #[trigger]
        cache.contains_key(pair_key(f, g)) ==> {
            let r = cache[pair_key(f, g)];
            &&& dd.valid(r)
            &&& is_without_n(dd, f, g, r)
            &&& dd.rank(r) <= higher(dd, f, g)
        }
}

/// Memos stay in order when the table grows.
pub proof fn lemma_memos_n_extend<L: MinsolRules>(
    a: TableView<L>,
    b: TableView<L>,
    cache1: Map<NodeId, NodeId>,
    cache2: Map<u128, NodeId>,
)
    requires
        a.wf(),
        a.extended_by(b),
        minsol_n_memo_ok(a, cache1),
        without_n_memo_ok(a, cache2),
    ensures
        minsol_n_memo_ok(b, cache1),
        without_n_memo_ok(b, cache2),
{
    lemma_extended(a, b);
    assert forall|k: NodeId| #[trigger] cache1.contains_key(k) implies b.valid(cache1[k])
        && is_minsol_n(b, k, cache1[k]) && b.rank(cache1[k]) <= b.rank(k) by {
        lemma_minsol_n_extends(a, b, k, cache1[k]);
        assert(a.valid(k));
    }
    assert forall|f: NodeId, g: NodeId| #[trigger]
        cache2.contains_key(pair_key(f, g)) implies {
        let r = cache2[pair_key(f, g)];
        &&& b.valid(r)
        &&& is_without_n(b, f, g, r)
        &&& b.rank(r) <= higher(b, f, g)
    } by {
        let r = cache2[pair_key(f, g)];
        lemma_without_n_extends(a, b, f, g, r);
        assert(a.valid(f) && a.valid(g));
    }
}

/// What is to be done for a pair, as the executable code holds it.
enum Step {
    Give(NodeId),
    Descend(NodeId, NodeId),
    Split(HeaderId, Vec<NodeId>, Vec<NodeId>),
}

/// A copy of `v`.
fn copy_ids(v: &Vec<NodeId>) -> (r: Vec<NodeId>)
    ensures
        r@ == v@,
{
    let mut r: Vec<NodeId> = Vec::new();
    let mut i: usize = 0;
    while i < v.len()
        invariant
            i <= v.len(),
            r@ =~= v@.subrange(0, i as int),
        decreases v.len() - i,
    {
        r.push(v[i]);
        i = i + 1;
    }
    assert(r@ =~= v@);
    r
}

/// `n` times the node `id`.
fn repeat_id(id: NodeId, n: usize) -> (r: Vec<NodeId>)
    ensures
        r@ == Seq::new(n as nat, |i: int| id),
{
    let mut r: Vec<NodeId> = Vec::new();
    let mut i: usize = 0;
    while i < n
        invariant
            i <= n,
            r@.len() == i,
            forall|j: int| 0 <= j < i ==> r@[j] == id,
        decreases n - i,
    {
        r.push(id);
        i = i + 1;
    }
    assert(r@ =~= Seq::new(n as nat, |i: int| id));
    r
}

/// Whether the step is the rule.
spec fn step_is(s: Step, r: Rule) -> bool {
    match s {
        Step::Give(x) => r == Rule::Give(x),
        Step::Descend(a, b) => r == Rule::Descend(a, b),
        Step::Split(h, xs, ys) => r == Rule::Split(h, xs@, ys@),
    }
}

/// The rule for `g` without `f`.
fn rule<L: MinsolRules>(dd: &NodeTable<L>, f: NodeId, g: NodeId) -> (s: Step)
    requires
        dd@.wf(),
        dd@.valid(f),
        dd@.valid(g),
    ensures
        step_is(s, without_rule(dd@, f, g)),
{
    proof {
        assert(dd@.node_linked(f) && dd@.node_linked(g));
    }
    match dd.get_node(f).unwrap() {
        Node::Undet => Step::Give(g),
        Node::Terminal(a) => {
            match dd.get_node(g).unwrap() {
                Node::Undet => Step::Give(dd.undet()),
                Node::Terminal(b) => {
                    if a.beats(b) {
                        Step::Give(g)
                    } else {
                        Step::Give(dd.undet())
                    }
                },
                Node::NonTerminal { header, children } => {
                    match a.over() {
                        Over::Split => Step::Split(
                            *header,
                            repeat_id(f, children.len()),
                            copy_ids(children),
                        ),
                        Over::Keep => Step::Give(g),
                        Over::Drop => Step::Give(dd.undet()),
                    }
                },
            }
        },
        Node::NonTerminal { header: fh, children: fc } => {
            match dd.get_node(g).unwrap() {
                Node::Undet => Step::Give(dd.undet()),
                Node::Terminal(b) => {
                    if b.under() {
                        Step::Split(*fh, copy_ids(fc), repeat_id(g, fc.len()))
                    } else {
                        Step::Give(dd.undet())
                    }
                },
                Node::NonTerminal { header: gh, children: gc } => {
                    proof {
                        assert(dd@.is_nonterminal(f) && dd@.is_nonterminal(g));
                        assert(fc@.len() >= 2);
                    }
                    let lf = dd.level(f).unwrap();
                    let lg = dd.level(g).unwrap();
                    if lf > lg {
                        Step::Descend(fc[0], g)
                    } else if lf < lg {
                        Step::Split(*gh, repeat_id(f, gc.len()), copy_ids(gc))
                    } else {
                        Step::Split(*fh, copy_ids(fc), copy_ids(gc))
                    }
                },
            }
        },
    }
}

/// The node that decides on `h` among `rs`.
fn mk_n<L: MinsolRules>(dd: &mut NodeTable<L>, h: HeaderId, rs: &Vec<NodeId>) -> (r: NodeId)
    requires
        old(dd).wf(),
        h < old(dd)@.headers.len(),
        rs@.len() == old(dd)@.headers[h as int].edge_num,
        forall|i: int|
            0 <= i < rs@.len() ==> old(dd)@.valid(#[trigger] rs@[i]) && old(dd)@.rank(rs@[i])
                <= old(dd)@.headers[h as int].level,
    ensures
        final(dd).wf(),
        old(dd)@.extended_by(final(dd)@),
        hash_consed(old(dd)@) ==> hash_consed(final(dd)@),
        final(dd)@.valid(r),
        is_mk_n(final(dd)@, h, rs@, r),
        final(dd)@.rank(r) <= old(dd)@.headers[h as int].level + 1,
{
    let r = dd.create_node(h, rs.as_slice());
    proof {
        let a = old(dd)@;
        let b = dd@;
        lemma_extended(a, b);
        assert(a.headers[h as int].edge_num >= 2);
        if all_same(rs@) {
            assert(a.valid(rs@[0]));
        } else {
            assert(b.is_nonterminal(r));
        }
    }
    r
}

/// What `without_all` has brought about, in the table `d` grown from `a`.
pub open spec fn all_done<L: MinsolRules>(
    a: TableView<L>,
    d: TableView<L>,
    xs: Seq<NodeId>,
    ys: Seq<NodeId>,
    rs: Seq<NodeId>,
    bound: nat,
) -> bool {
    &&& xs.len() == ys.len()
    &&& rs.len() == xs.len()
    &&& is_without_upto(d, xs, ys, rs, xs.len(), bound)
    &&& forall|i: int|
        0 <= i < rs.len() ==> d.valid(#[trigger] rs[i]) && d.rank(rs[i]) <= higher(
            a,
            xs[i],
            ys[i],
        )
}

/// For each place the node of `ys` without the node of `xs`.
fn without_all<L: MinsolRules>(
    dd: &mut NodeTable<L>,
    xs: &Vec<NodeId>,
    ys: &Vec<NodeId>,
    cache: &mut HashMap<u128, NodeId>,
    Ghost(bound): Ghost<nat>,
) -> (rs: Vec<NodeId>)
    requires
        old(dd).wf(),
        xs@.len() == ys@.len(),
        forall|i: int|
            0 <= i < xs@.len() ==> old(dd)@.valid(#[trigger] xs@[i]) && old(dd)@.valid(ys@[i])
                && rank_sum(old(dd)@, xs@[i], ys@[i]) < bound,
        without_n_memo_ok(old(dd)@, old(cache)@),
    ensures
        final(dd).wf(),
        old(dd)@.extended_by(final(dd)@),
        hash_consed(old(dd)@) ==> hash_consed(final(dd)@),
        without_n_memo_ok(final(dd)@, final(cache)@),
        memo_kept(old(cache)@, final(cache)@),
        all_done(old(dd)@, final(dd)@, xs@, ys@, rs@, bound),
    decreases bound, 0nat,
{
    let ghost a = dd@;
    let ghost held = cache@;
    let mut rs: Vec<NodeId> = Vec::new();
    let mut i: usize = 0;
    assert(a.extended_by(a));
    proof {
        lemma_memo_kept_same(held);
    }
    while i < xs.len()
        invariant
            memo_kept(held, cache@),
            i <= xs.len(),
            xs@.len() == ys@.len(),
            rs@.len() == i,
            a.wf(),
            a == old(dd)@,
            dd.wf(),
            a.extended_by(dd@),
            hash_consed(a) ==> hash_consed(dd@),
            forall|j: int|
                0 <= j < xs@.len() ==> a.valid(#[trigger] xs@[j]) && a.valid(ys@[j]) && rank_sum(
                    a,
                    xs@[j],
                    ys@[j],
                ) < bound,
            without_n_memo_ok(dd@, cache@),
            is_without_upto(dd@, xs@, ys@, rs@, i as nat, bound),
            forall|j: int|
                0 <= j < i ==> dd@.valid(#[trigger] rs@[j]) && dd@.rank(rs@[j]) <= higher(
                    a,
                    xs@[j],
                    ys@[j],
                ),
        decreases xs.len() - i,
    {
        let ghost b = dd@;
        let ghost before = rs@;
        let ghost then = cache@;
        proof {
            lemma_extended(a, b);
            assert(a.valid(xs@[i as int]));
        }
        let r = without_n(dd, xs[i], ys[i], cache);
        rs.push(r);
        proof {
            let c = dd@;
            lemma_memo_kept_twice(held, then, cache@);
            lemma_extended(b, c);
            lemma_extended(a, c);
            lemma_without_upto_extends(b, c, xs@, ys@, before, i as nat, bound);
            lemma_without_upto_prefix(c, xs@, ys@, before, rs@, i as nat, bound);
            assert forall|j: int| 0 <= j < i + 1 implies c.valid(#[trigger] rs@[j]) && c.rank(
                rs@[j],
            ) <= higher(a, xs@[j], ys@[j]) by {
                if j < i {
                    assert(rs@[j] == before[j]);
                    assert(b.valid(before[j]));
                } else {
                    assert(a.valid(xs@[j]));
                }
            }
            assert(a.valid(xs@[i as int]));
            assert(rank_sum(c, xs@[i as int], ys@[i as int]) < bound);
            assert(is_without_upto(c, xs@, ys@, rs@, (i + 1) as nat, bound));
        }
        i = i + 1;
    }
    rs
}

/// What holds of the first `n` places depends on these places only.
proof fn lemma_without_upto_prefix<L: MinsolRules>(
    dd: TableView<L>,
    xs: Seq<NodeId>,
    ys: Seq<NodeId>,
    rs: Seq<NodeId>,
    rs2: Seq<NodeId>,
    n: nat,
    bound: nat,
)
    requires
        is_without_upto(dd, xs, ys, rs, n, bound),
        n <= rs.len(),
        n <= rs2.len(),
        forall|j: int| 0 <= j < n ==> rs[j] == rs2[j],
    ensures
        is_without_upto(dd, xs, ys, rs2, n, bound),
    decreases n,
{
    if n > 0 {
        lemma_without_upto_prefix(dd, xs, ys, rs, rs2, (n - 1) as nat, bound);
    }
}

/// Enters the node of the pair `(f, g)` into the memo; the other entries stay.
fn remember_n<L: MinsolRules>(
    dd: &NodeTable<L>,
    cache: &mut HashMap<u128, NodeId>,
    f: NodeId,
    g: NodeId,
    node: NodeId,
)
    requires
        without_n_memo_ok(dd@, old(cache)@),
        dd@.valid(node),
        is_without_n(dd@, f, g, node),
        dd@.rank(node) <= higher(dd@, f, g),
    ensures
        final(cache)@ == old(cache)@.insert(pair_key(f, g), node),
        without_n_memo_ok(dd@, final(cache)@),
{
    broadcast use vstd::std_specs::hash::group_hash_axioms;

    let key: u128 = (f as u128) * 0x1_0000_0000_0000_0000u128 + (g as u128);
    assert(key == pair_key(f, g));
    cache.insert(key, node);
    proof {
        assert forall|f2: NodeId, g2: NodeId| #[trigger]
            cache@.contains_key(pair_key(f2, g2)) implies {
            let r = cache@[pair_key(f2, g2)];
            &&& dd@.valid(r)
            &&& is_without_n(dd@, f2, g2, r)
            &&& dd@.rank(r) <= higher(dd@, f2, g2)
        } by {
            if pair_key(f2, g2) == key {
                lemma_pair_key_injective(f, g, f2, g2);
            } else {
                assert(old(cache)@.contains_key(pair_key(f2, g2)));
            }
        }
    }
}

/// What `without_n` has brought about where it returned `v`, in the
/// table `d` grown from `a`.
pub open spec fn without_n_done<L: MinsolRules>(
    a: TableView<L>,
    d: TableView<L>,
    f: NodeId,
    g: NodeId,
    v: NodeId,
) -> bool {
    &&& d.valid(v)
    &&& is_without_n(d, f, g, v)
    &&& d.rank(v) <= higher(a, f, g)
}

/// `g` without `f`: what is left of the minimal solutions `g` beside the
/// diagram `f`, by the rules of [`without_rule`]. New nodes are made in
/// `dd`; what it held stays. `cache` is the memo of this table, keyed by
/// the pair: afterwards it holds the result under the key of the pair,
/// and what it held stays.
pub fn without_n<L: MinsolRules>(
    dd: &mut NodeTable<L>,
    f: NodeId,
    g: NodeId,
    cache: &mut HashMap<u128, NodeId>,
) -> (r: NodeId)
    requires
        old(dd).wf(),
        old(dd)@.valid(f),
        old(dd)@.valid(g),
        without_n_memo_ok(old(dd)@, old(cache)@),
    ensures
        final(dd).wf(),
        old(dd)@.extended_by(final(dd)@),
        hash_consed(old(dd)@) ==> hash_consed(final(dd)@),
        without_n_memo_ok(final(dd)@, final(cache)@),
        without_n_done(old(dd)@, final(dd)@, f, g, r),
        memo_kept(old(cache)@, final(cache)@),
        final(cache)@.contains_key(pair_key(f, g)),
        final(cache)@[pair_key(f, g)] == r,
    decreases rank_sum(old(dd)@, f, g), 1nat,
{
    broadcast use vstd::std_specs::hash::group_hash_axioms;

    let ghost a = dd@;
    let ghost held = cache@;
    assert(a.extended_by(a));
    proof {
        lemma_memo_kept_same(held);
    }
    let key: u128 = (f as u128) * 0x1_0000_0000_0000_0000u128 + (g as u128);
    assert(key == pair_key(f, g));
    if let Some(x) = cache.get(&key) {
        return *x;
    }
    proof {
        lemma_rule_valid(a, f, g);
    }
    let node = match rule(dd, f, g) {
        Step::Give(x) => x,
        Step::Descend(f2, g2) => {
            let r = without_n(dd, f2, g2, cache);
            proof {
                lemma_rule_extends(a, dd@, f, g);
            }
            r
        },
        Step::Split(h, xs, ys) => {
            let rs = without_all(dd, &xs, &ys, cache, Ghost(rank_sum(a, f, g)));
            let ghost b = dd@;
            proof {
                lemma_extended(a, b);
                assert forall|i: int| 0 <= i < rs@.len() implies b.valid(#[trigger] rs@[i])
                    && b.rank(rs@[i]) <= b.headers[h as int].level by {
                    assert(a.valid(xs@[i]));
                }
            }
            let r = mk_n(dd, h, &rs);
            proof {
                let c = dd@;
                lemma_extended(b, c);
                lemma_extended(a, c);
                lemma_rule_extends(a, c, f, g);
                lemma_without_upto_extends(b, c, xs@, ys@, rs@, xs@.len(), rank_sum(a, f, g));
                lemma_memos_n_extend(b, c, Map::empty(), cache@);
                assert(is_mk_n(c, h, rs@, r));
                assert(is_without_n(c, f, g, r));
            }
            r
        },
    };
    proof {
        lemma_extended(a, dd@);
        assert(without_n_done(a, dd@, f, g, node));
        lemma_memo_kept_entry(held, cache@, key, node);
    }
    remember_n(dd, cache, f, g, node);
    node
}

/// What holds of the first `n` children depends on their places only.
proof fn lemma_minsol_upto_prefix<L: MinsolRules>(
    dd: TableView<L>,
    f: NodeId,
    rs: Seq<NodeId>,
    rs2: Seq<NodeId>,
    n: nat,
)
    requires
        is_minsol_upto(dd, f, rs, n),
        n <= rs.len(),
        n <= rs2.len(),
        forall|j: int| 0 <= j < n ==> rs[j] == rs2[j],
    ensures
        is_minsol_upto(dd, f, rs2, n),
    decreases n,
{
    if n > 0 {
        lemma_minsol_upto_prefix(dd, f, rs, rs2, (n - 1) as nat);
    }
}

/// Enters the minimal-solution node of `f` into the memo; the other entries stay.
fn remember_minsol_n<L: MinsolRules>(
    dd: &NodeTable<L>,
    cache1: &mut HashMap<NodeId, NodeId>,
    f: NodeId,
    node: NodeId,
)
    requires
        minsol_n_memo_ok(dd@, old(cache1)@),
        dd@.valid(node),
        is_minsol_n(dd@, f, node),
        dd@.rank(node) <= dd@.rank(f),
    ensures
        final(cache1)@ == old(cache1)@.insert(f, node),
        minsol_n_memo_ok(dd@, final(cache1)@),
{
    broadcast use vstd::std_specs::hash::group_hash_axioms;

    cache1.insert(f, node);
    proof {
        assert forall|k: NodeId| #[trigger] cache1@.contains_key(k) implies dd@.valid(cache1@[k])
            && is_minsol_n(dd@, k, cache1@[k]) && dd@.rank(cache1@[k]) <= dd@.rank(k) by {
            if k != f {
                assert(old(cache1)@.contains_key(k));
            }
        }
    }
}

/// What `minsol_n` has brought about where it returned `v` for `node`,
/// in the table `d` grown from `a`.
pub open spec fn minsol_n_done<L: MinsolRules>(
    a: TableView<L>,
    d: TableView<L>,
    node: NodeId,
    v: NodeId,
) -> bool {
    &&& d.valid(v)
    &&& is_minsol_n(d, node, v)
    &&& d.rank(v) <= a.rank(node)
}

/// What the loop of `minsol_n` has brought about for the children of
/// `node`.
spec fn children_done<L: MinsolRules>(
    a: TableView<L>,
    d: TableView<L>,
    node: NodeId,
    rs: Seq<NodeId>,
) -> bool {
    &&& rs.len() == a.children(node).len()
    &&& is_minsol_upto(d, node, rs, rs.len())
    &&& forall|j: int| 0 <= j < rs.len() ==> d.valid(#[trigger] rs[j]) && d.rank(rs[j]) < a.rank(node)
}

/// The minimal-solution nodes of the children of `node`, each but the
/// first without the child before it.
fn minsol_children<L: MinsolRules>(
    dd: &mut NodeTable<L>,
    node: NodeId,
    children: &Vec<NodeId>,
    cache1: &mut HashMap<NodeId, NodeId>,
    cache2: &mut HashMap<u128, NodeId>,
) -> (rs: Vec<NodeId>)
    requires
        old(dd).wf(),
        old(dd)@.is_nonterminal(node),
        old(dd)@.children(node) == children@,
        minsol_n_memo_ok(old(dd)@, old(cache1)@),
        without_n_memo_ok(old(dd)@, old(cache2)@),
    ensures
        final(dd).wf(),
        old(dd)@.extended_by(final(dd)@),
        hash_consed(old(dd)@) ==> hash_consed(final(dd)@),
        minsol_n_memo_ok(final(dd)@, final(cache1)@),
        without_n_memo_ok(final(dd)@, final(cache2)@),
        memo_kept(old(cache1)@, final(cache1)@),
        memo_kept(old(cache2)@, final(cache2)@),
        children_done(old(dd)@, final(dd)@, node, rs@),
    decreases old(dd)@.rank(node), 0nat,
{
    let ghost a = dd@;
    let ghost held1 = cache1@;
    let ghost held2 = cache2@;
    let mut rs: Vec<NodeId> = Vec::new();
    let mut i: usize = 0;
    assert(a.extended_by(a));
    proof {
        lemma_memo_kept_same(held1);
        lemma_memo_kept_same(held2);
    }
    while i < children.len()
        invariant
            memo_kept(held1, cache1@),
            memo_kept(held2, cache2@),
            i <= children.len(),
            rs@.len() == i,
            a.wf(),
            a == old(dd)@,
            a.is_nonterminal(node),
            a.children(node) == children@,
            dd.wf(),
            a.extended_by(dd@),
            hash_consed(a) ==> hash_consed(dd@),
            minsol_n_memo_ok(dd@, cache1@),
            without_n_memo_ok(dd@, cache2@),
            is_minsol_upto(dd@, node, rs@, i as nat),
            forall|j: int| 0 <= j < i ==> dd@.valid(#[trigger] rs@[j]) && dd@.rank(rs@[j]) < a.rank(node),
        decreases children.len() - i,
    {
        let ghost b = dd@;
        let ghost before = rs@;
        proof {
            lemma_extended(a, b);
            assert(a.node_linked(node));
            assert(a.node_descends(node));
            assert(a.valid(children@[i as int]));
            assert(a.rank(children@[i as int]) < a.rank(node));
            if i > 0 {
                assert(a.valid(children@[i - 1]));
                assert(a.rank(children@[i - 1]) < a.rank(node));
            }
        }
        let ghost then1 = cache1@;
        let ghost then2 = cache2@;
        let tmp = minsol_n(dd, children[i], cache1, cache2);
        let ghost c = dd@;
        let ghost later2 = cache2@;
        proof {
            lemma_extended(b, c);
            lemma_extended(a, c);
            lemma_memo_kept_twice(held1, then1, cache1@);
            lemma_memo_kept_twice(held2, then2, later2);
        }
        let r = if i == 0 {
            tmp
        } else {
            let t = without_n(dd, children[i - 1], tmp, cache2);
            proof {
                lemma_memo_kept_twice(held2, later2, cache2@);
                lemma_extended(c, dd@);
                lemma_memos_n_extend(c, dd@, cache1@, Map::empty());
                lemma_minsol_n_extends(c, dd@, children@[i as int], tmp);
                assert(on_way(dd@, tmp));
            }
            t
        };
        rs.push(r);
        proof {
            let d = dd@;
            lemma_extended(c, d);
            lemma_extended(b, d);
            lemma_extended(a, d);
            lemma_minsol_upto_extends(b, d, node, before, i as nat);
            lemma_minsol_upto_prefix(d, node, before, rs@, i as nat);
            assert(d.children(node) == children@);
            assert forall|j: int| 0 <= j < i + 1 implies d.valid(#[trigger] rs@[j]) && d.rank(
                rs@[j],
            ) < a.rank(node) by {
                if j < i {
                    assert(rs@[j] == before[j]);
                    assert(b.valid(before[j]));
                }
            }
            assert(is_minsol_upto(d, node, rs@, (i + 1) as nat));
        }
        i = i + 1;
    }
    rs
}

/// The node of the minimal solutions of `node`, by the rules of
/// [`is_minsol_n`]. New nodes are made in `dd`; what it held stays.
/// `cache1` and `cache2` are the memos of `minsol_n` and `without_n` for
/// this table: afterwards `cache1` holds the result under `node`, and
/// what the two held stays. For a terminal no node is made.
pub fn minsol_n<L: MinsolRules>(
    dd: &mut NodeTable<L>,
    node: NodeId,
    cache1: &mut HashMap<NodeId, NodeId>,
    cache2: &mut HashMap<u128, NodeId>,
) -> (r: NodeId)
    requires
        old(dd).wf(),
        old(dd)@.valid(node),
        minsol_n_memo_ok(old(dd)@, old(cache1)@),
        without_n_memo_ok(old(dd)@, old(cache2)@),
    ensures
        final(dd).wf(),
        old(dd)@.extended_by(final(dd)@),
        hash_consed(old(dd)@) ==> hash_consed(final(dd)@),
        minsol_n_memo_ok(final(dd)@, final(cache1)@),
        without_n_memo_ok(final(dd)@, final(cache2)@),
        minsol_n_done(old(dd)@, final(dd)@, node, r),
        memo_kept(old(cache1)@, final(cache1)@),
        memo_kept(old(cache2)@, final(cache2)@),
        final(cache1)@.contains_key(node),
        final(cache1)@[node] == r,
        !old(dd)@.is_nonterminal(node) ==> final(dd)@ == old(dd)@,
    decreases old(dd)@.rank(node), 1nat,
{
    broadcast use vstd::std_specs::hash::group_hash_axioms;

    let ghost a = dd@;
    let ghost held1 = cache1@;
    assert(a.extended_by(a));
    proof {
        lemma_memo_kept_same(held1);
        lemma_memo_kept_same(cache2@);
    }
    if let Some(x) = cache1.get(&node) {
        return *x;
    }
    let mut inner: Option<(HeaderId, Vec<NodeId>)> = None;
    let mut kept = false;
    match dd.get_node(node).unwrap() {
        Node::Terminal(v) => {
            kept = v.survives();
        },
        Node::Undet => {},
        Node::NonTerminal { header, children } => {
            inner = Some((*header, copy_ids(children)));
        },
    }
    let result = match inner {
        None => {
            if kept {
                node
            } else {
                dd.undet()
            }
        },
        Some((header, children)) => {
            proof {
                assert(a.is_nonterminal(node));
                assert(a.node_linked(node));
            }
            let rs = minsol_children(dd, node, &children, cache1, cache2);
            let ghost b = dd@;
            proof {
                lemma_extended(a, b);
            }
            let r = mk_n(dd, header, &rs);
            proof {
                let c = dd@;
                lemma_extended(b, c);
                lemma_extended(a, c);
                lemma_memos_n_extend(b, c, cache1@, cache2@);
                lemma_minsol_upto_extends(b, c, node, rs@, rs@.len());
                assert(is_mk_n(c, header, rs@, r));
                assert(is_minsol_n(c, node, r));
            }
            r
        },
    };
    proof {
        lemma_extended(a, dd@);
        assert(minsol_n_done(a, dd@, node, result));
        lemma_memo_kept_entry(held1, cache1@, node, result);
    }
    remember_minsol_n(dd, cache1, node, result);
    result
}

/// The node is in its table.
pub open spec fn in_table<V: MDDValue + MinsolRules>(
    mdd: &MtMdd2Manager<V>,
    node: crate::mtmdd2::Node,
) -> bool {
    match node {
        crate::mtmdd2::Node::Value(id) => mdd.mtmdd@.valid(id),
        crate::mtmdd2::Node::Bool(id) => mdd.mdd@.valid(id),
    }
}

/// `r` holds the minimal solutions of `node`, in the table of `node`.
pub open spec fn is_minsol_of<V: MDDValue + MinsolRules>(
    mdd: &MtMdd2Manager<V>,
    node: crate::mtmdd2::Node,
    r: crate::mtmdd2::Node,
) -> bool {
    match (node, r) {
        (crate::mtmdd2::Node::Value(id), crate::mtmdd2::Node::Value(v)) => mdd.mtmdd@.valid(v)
            && is_minsol_n(mdd.mtmdd@, id, v),
        (crate::mtmdd2::Node::Bool(id), crate::mtmdd2::Node::Bool(v)) => mdd.mdd@.valid(v)
            && is_minsol_n(mdd.mdd@, id, v),
        _ => false,
    }
}

/// The node of the minimal solutions of `node`. In a diagram with value
/// terminals every terminal is a solution; in one with Boolean terminals
/// false is none, and becomes the undetermined terminal. New nodes are
/// made in the table of `node`; what the tables held stays. Fails with
/// `MissingNode` for a node that its table does not hold.
pub fn minsol<V: MDDValue + MinsolRules>(
    mdd: &mut MtMdd2Manager<V>,
    node: &crate::mtmdd2::Node,
) -> (r: Result<crate::mtmdd2::Node, Error>)
    requires
        old(mdd).wf(),
    ensures
        final(mdd).wf(),
        old(mdd).mdd@.extended_by(final(mdd).mdd@),
        old(mdd).mtmdd@.extended_by(final(mdd).mtmdd@),
        hash_consed(old(mdd).mdd@) ==> hash_consed(final(mdd).mdd@),
        hash_consed(old(mdd).mtmdd@) ==> hash_consed(final(mdd).mtmdd@),
        match r {
            Ok(v) => in_table(old(mdd), *node) && is_minsol_of(final(mdd), *node, v),
            Err(e) => !in_table(old(mdd), *node) && e == Error::MissingNode,
        },
{
    assert(old(mdd).mdd@.extended_by(old(mdd).mdd@));
    assert(old(mdd).mtmdd@.extended_by(old(mdd).mtmdd@));
    match node {
        crate::mtmdd2::Node::Value(fnode) => {
            if mdd.mtmdd.get_node(*fnode).is_none() {
                return Err(Error::MissingNode);
            }
            let mut cache1: HashMap<NodeId, NodeId> = HashMap::new();
            let mut cache2: HashMap<u128, NodeId> = HashMap::new();
            let result = minsol_n(&mut mdd.mtmdd, *fnode, &mut cache1, &mut cache2);
            Ok(crate::mtmdd2::Node::Value(result))
        },
        crate::mtmdd2::Node::Bool(fnode) => {
            if mdd.mdd.get_node(*fnode).is_none() {
                return Err(Error::MissingNode);
            }
            let mut cache1: HashMap<NodeId, NodeId> = HashMap::new();
            let mut cache2: HashMap<u128, NodeId> = HashMap::new();
            let result = minsol_n(&mut mdd.mdd, *fnode, &mut cache1, &mut cache2);
            proof {
                lemma_extended(old(mdd).mdd@, mdd.mdd@);
            }
            Ok(crate::mtmdd2::Node::Bool(result))
        },
    }
}

} // verus!
