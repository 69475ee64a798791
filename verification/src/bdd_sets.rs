use crate::bdd_minsol::{is_minsol, is_mk, is_without, mk3, ONE, ZERO};
use crate::common::{HeaderId, Level, NodeId};
use crate::table::{NodeView, TableView};
use vstd::prelude::*;

verus! {

/// The value of the diagram, entered at `id`, where exactly the
/// variables at the levels of `s` are true: at a node the high child is
/// taken where the level of the node is in `s`, the low child otherwise.
pub open spec fn holds(dd: TableView<bool>, id: NodeId, s: Set<Level>) -> bool
    decreases dd.rank(id),
{
    if !dd.valid(id) {
        false
    } else {
        match dd.nodes[id as int] {
            NodeView::Terminal(v) => v,
            NodeView::Undet => false,
            NodeView::NonTerminal { header, children } => {
                if proper(dd, id) {
                    if s.contains(dd.header(id).level) {
                        holds(dd, children[1], s)
                    } else {
                        holds(dd, children[0], s)
                    }
                } else {
                    false
                }
            },
        }
    }
}

/// The node is a binary decision with both children strictly below it.
pub open spec fn proper(dd: TableView<bool>, id: NodeId) -> bool {
    &&& dd.is_nonterminal(id)
    &&& dd.header_id(id) < dd.headers.len()
    &&& dd.children(id).len() == 2
    &&& dd.rank(dd.children(id)[0]) < dd.rank(id)
    &&& dd.rank(dd.children(id)[1]) < dd.rank(id)
}

/// `s` is one of the sets that the diagram holds below `id` when it is
/// read as a family of sets: a path to the terminal true that takes the
/// high edge at exactly the levels of `s`.
pub open spec fn has_set(dd: TableView<bool>, id: NodeId, s: Set<Level>) -> bool
    decreases dd.rank(id),
{
    if !dd.valid(id) {
        false
    } else {
        match dd.nodes[id as int] {
            NodeView::Terminal(v) => v && s =~= Set::<Level>::empty(),
            NodeView::Undet => false,
            NodeView::NonTerminal { header, children } => {
                if proper(dd, id) {
                    if s.contains(dd.header(id).level) {
                        has_set(dd, children[1], s.remove(dd.header(id).level))
                    } else {
                        has_set(dd, children[0], s)
                    }
                } else {
                    false
                }
            },
        }
    }
}

/// The function of the node is monotone: at every node below it, what
/// holds with the variable false holds with the variable true.
pub open spec fn monotone(dd: TableView<bool>, id: NodeId) -> bool
    decreases dd.rank(id),
{
    if !dd.valid(id) {
        false
    } else {
        match dd.nodes[id as int] {
            NodeView::Terminal(v) => true,
            NodeView::Undet => false,
            NodeView::NonTerminal { header, children } => {
                &&& proper(dd, id)
                &&& monotone(dd, children[0])
                &&& monotone(dd, children[1])
                &&& forall|s: Set<Level>|
                    holds(dd, children[0], s) ==> #[trigger] holds(dd, children[1], s)
            },
        }
    }
}

/// A monotone function that holds for a set holds for every larger set.
pub proof fn lemma_holds_grows(dd: TableView<bool>, id: NodeId, s: Set<Level>, t: Set<Level>)
    requires
        monotone(dd, id),
        s.subset_of(t),
        holds(dd, id, s),
    ensures
        holds(dd, id, t),
    decreases dd.rank(id),
{
    match dd.nodes[id as int] {
        NodeView::NonTerminal { header, children } => {
            let l = dd.header(id).level;
            if s.contains(l) {
                assert(t.contains(l));
                lemma_holds_grows(dd, children[1], s, t);
            } else {
                lemma_holds_grows(dd, children[0], s, t);
                if t.contains(l) {
                    assert(holds(dd, children[1], t));
                }
            }
        },
        _ => {},
    }
}

/// The sets of a node hold only levels below the node.
pub proof fn lemma_set_below(dd: TableView<bool>, id: NodeId, s: Set<Level>, x: Level)
    requires
        has_set(dd, id, s),
        s.contains(x),
    ensures
        x < dd.rank(id),
    decreases dd.rank(id),
{
    match dd.nodes[id as int] {
        NodeView::NonTerminal { header, children } => {
            let l = dd.header(id).level;
            if s.contains(l) {
                if x != l {
                    lemma_set_below(dd, children[1], s.remove(l), x);
                }
            } else {
                lemma_set_below(dd, children[0], s, x);
            }
        },
        _ => {},
    }
}

/// What a made node holds: the sets of the one node where the two
/// children are one, and else the sets of the low child and the sets of
/// the high child with the level of the header.
proof fn lemma_mk_sets(
    dd: TableView<bool>,
    h: HeaderId,
    lo: NodeId,
    hi: NodeId,
    r: NodeId,
    s: Set<Level>,
)
    requires
        dd.wf(),
        is_mk(dd, h, lo, hi, r),
        has_set(dd, r, s),
    ensures
        lo == hi ==> has_set(dd, lo, s),
        lo != hi ==> h < dd.headers.len() && if s.contains(dd.headers[h as int].level) {
            has_set(dd, hi, s.remove(dd.headers[h as int].level))
        } else {
            has_set(dd, lo, s)
        },
{
    if lo != hi {
        assert(dd.is_nonterminal(r));
        assert(dd.node_linked(r));
        assert(dd.children(r) == seq![lo, hi]);
        assert(dd.children(r)[0] == lo && dd.children(r)[1] == hi);
    }
}

/// A set of a node, with the level of the node's variable where the
/// high edge is meant, is a set of the node above.
proof fn lemma_set_of_parent(dd: TableView<bool>, id: NodeId, s: Set<Level>, high: bool)
    requires
        dd.wf(),
        proper(dd, id),
        has_set(dd, dd.children(id)[if high { 1int } else { 0int }], s),
    ensures
        has_set(dd, id, if high { s.insert(dd.header(id).level) } else { s }),
{
    let l = dd.header(id).level;
    let c = dd.children(id)[if high { 1int } else { 0int }];
    assert(!s.contains(l)) by {
        if s.contains(l) {
            lemma_set_below(dd, c, s, l);
        }
    }
    if high {
        assert(s.insert(l).remove(l) =~= s);
    }
}

/// Every set of `f` without `g` has a set of `f` among its subsets.
pub proof fn lemma_without_sets(
    dd: TableView<bool>,
    f: NodeId,
    g: NodeId,
    r: NodeId,
    s: Set<Level>,
) -> (sub: Set<Level>)
    requires
        dd.wf(),
        dd.has_constants(),
        is_without(dd, f, g, r),
        has_set(dd, r, s),
    ensures
        sub.subset_of(s),
        has_set(dd, f, sub),
    decreases dd.rank(f) + dd.rank(g),
{
    assert(dd.valid(f) && dd.valid(g));
    assert(dd.node_linked(f) && dd.node_linked(g));
    assert(dd.node_descends(f) && dd.node_descends(g));
    match (dd.nodes[f as int], dd.nodes[g as int]) {
        (NodeView::Terminal(false), _) => {
            assert(r == ZERO);
            s
        },
        (_, NodeView::Terminal(false)) => s,
        (_, NodeView::Terminal(true)) => {
            assert(r == ZERO);
            s
        },
        (NodeView::Terminal(true), NodeView::NonTerminal { header, children }) => {
            Set::<Level>::empty()
        },
        (
            NodeView::NonTerminal { header: fh, children: fc },
            NodeView::NonTerminal { header: gh, children: gc },
        ) => {
            assert(dd.is_nonterminal(f) && dd.is_nonterminal(g));
            assert(dd.children(f) == fc && dd.children(g) == gc);
            assert(proper(dd, f));
            let l = dd.header(f).level;
            if f == g {
                assert(r == ZERO);
                s
            } else if dd.rank(f) > dd.rank(g) {
                let (lo, hi) = choose|lo: NodeId, hi: NodeId|
                    is_without(dd, fc[0], g, lo) && is_without(dd, fc[1], g, hi)
                        && #[trigger] is_mk(dd, fh, lo, hi, r);
                lemma_mk_sets(dd, fh, lo, hi, r, s);
                if lo == hi || !s.contains(l) {
                    let sub = lemma_without_sets(dd, fc[0], g, lo, s);
                    lemma_set_of_parent(dd, f, sub, false);
                    sub
                } else {
                    let sub = lemma_without_sets(dd, fc[1], g, hi, s.remove(l));
                    lemma_set_of_parent(dd, f, sub, true);
                    sub.insert(l)
                }
            } else if dd.rank(f) < dd.rank(g) {
                lemma_without_sets(dd, f, gc[0], r, s)
            } else {
                let (lo, hi) = choose|lo: NodeId, hi: NodeId|
                    is_without(dd, fc[0], gc[0], lo) && is_without(dd, fc[1], gc[1], hi)
                        && #[trigger] is_mk(dd, fh, lo, hi, r);
                lemma_mk_sets(dd, fh, lo, hi, r, s);
                if lo == hi || !s.contains(l) {
                    let sub = lemma_without_sets(dd, fc[0], gc[0], lo, s);
                    lemma_set_of_parent(dd, f, sub, false);
                    sub
                } else {
                    let sub = lemma_without_sets(dd, fc[1], gc[1], hi, s.remove(l));
                    lemma_set_of_parent(dd, f, sub, true);
                    sub.insert(l)
                }
            }
        },
        _ => s,
    }
}

/// Every set of the minimal-solution node is a solution: where `f` is
/// monotone and `g` is its minimal-solution node, the function of `f`
/// holds for the variables of each set that `g` holds.
pub proof fn lemma_minsol_sound(dd: TableView<bool>, f: NodeId, g: NodeId, s: Set<Level>)
    requires
        dd.wf(),
        dd.has_constants(),
        monotone(dd, f),
        is_minsol(dd, f, g),
        has_set(dd, g, s),
    ensures
        holds(dd, f, s),
    decreases dd.rank(f),
{
    match dd.nodes[f as int] {
        NodeView::Terminal(v) => {
            if !v {
                assert(g == ZERO);
            }
        },
        NodeView::Undet => {},
        NodeView::NonTerminal { header, children } => {
            assert(dd.is_nonterminal(f));
            assert(dd.children(f) == children);
            let l = dd.header(f).level;
            let (lo, tmp, hi) = choose|lo: NodeId, tmp: NodeId, hi: NodeId|
                is_minsol(dd, children[0], lo) && is_minsol(dd, children[1], tmp) && is_without(
                    dd,
                    tmp,
                    children[0],
                    hi,
                ) && #[trigger] mk3(dd, header, lo, tmp, hi, g);
            lemma_mk_sets(dd, header, lo, hi, g, s);
            if lo == hi || !s.contains(l) {
                lemma_minsol_sound(dd, children[0], lo, s);
                assert(holds(dd, children[1], s));
            } else {
                let t = s.remove(l);
                let sub = lemma_without_sets(dd, tmp, children[0], hi, t);
                lemma_minsol_sound(dd, children[1], tmp, sub);
                lemma_holds_grows(dd, children[1], sub, s);
            }
        },
    }
}

/// What holds at a node depends only on the levels below the node.
pub proof fn lemma_holds_local(dd: TableView<bool>, id: NodeId, s: Set<Level>, t: Set<Level>)
    requires
        forall|x: Level| x < dd.rank(id) ==> s.contains(x) == t.contains(x),
    ensures
        holds(dd, id, s) == holds(dd, id, t),
    decreases dd.rank(id),
{
    if dd.valid(id) && proper(dd, id) {
        lemma_holds_local(dd, dd.children(id)[0], s, t);
        lemma_holds_local(dd, dd.children(id)[1], s, t);
    }
}

/// The function of a node holds for each of the node's sets.
pub proof fn lemma_set_holds(dd: TableView<bool>, id: NodeId, s: Set<Level>)
    requires
        has_set(dd, id, s),
    ensures
        holds(dd, id, s),
    decreases dd.rank(id),
{
    match dd.nodes[id as int] {
        NodeView::NonTerminal { header, children } => {
            let l = dd.header(id).level;
            if s.contains(l) {
                lemma_set_holds(dd, children[1], s.remove(l));
                lemma_holds_local(dd, children[1], s.remove(l), s);
            } else {
                lemma_set_holds(dd, children[0], s);
            }
        },
        _ => {},
    }
}

/// A set of a child is, with the level of the header where it is a set
/// of the high child, a set of the made node; where the two children are
/// one, the set itself is.
proof fn lemma_sets_of_mk(
    dd: TableView<bool>,
    h: HeaderId,
    lo: NodeId,
    hi: NodeId,
    r: NodeId,
    s: Set<Level>,
    high: bool,
)
    requires
        dd.wf(),
        h < dd.headers.len(),
        is_mk(dd, h, lo, hi, r),
        has_set(dd, if high { hi } else { lo }, s),
    ensures
        has_set(dd, r, if high && lo != hi { s.insert(dd.headers[h as int].level) } else { s }),
{
    if lo != hi {
        assert(dd.is_nonterminal(r));
        assert(dd.node_linked(r));
        assert(dd.node_descends(r));
        assert(dd.children(r) == seq![lo, hi]);
        assert(dd.children(r)[0] == lo && dd.children(r)[1] == hi);
        assert(proper(dd, r));
        lemma_set_of_parent(dd, r, s, high);
    }
}

/// Of each set of `f` for which `g` does not hold, `f` without `g` has a
/// set among the subsets.
pub proof fn lemma_without_covers(
    dd: TableView<bool>,
    f: NodeId,
    g: NodeId,
    r: NodeId,
    s: Set<Level>,
) -> (sub: Set<Level>)
    requires
        dd.wf(),
        dd.has_constants(),
        is_without(dd, f, g, r),
        has_set(dd, f, s),
        !holds(dd, g, s),
    ensures
        sub.subset_of(s),
        has_set(dd, r, sub),
    decreases dd.rank(f) + dd.rank(g),
{
    assert(dd.valid(f) && dd.valid(g));
    assert(dd.node_linked(f) && dd.node_linked(g));
    assert(dd.node_descends(f) && dd.node_descends(g));
    match (dd.nodes[f as int], dd.nodes[g as int]) {
        (NodeView::Terminal(false), _) => s,
        (_, NodeView::Terminal(false)) => s,
        (_, NodeView::Terminal(true)) => s,
        (NodeView::Terminal(true), NodeView::NonTerminal { header, children }) => {
            assert(dd.is_nonterminal(g));
            assert(dd.children(g) == children);
            assert(proper(dd, g));
            let (lo, hi) = choose|lo: NodeId, hi: NodeId|
                is_without(dd, f, children[0], lo) && is_without(dd, f, children[1], hi)
                    && #[trigger] is_mk(dd, header, lo, hi, r);
            assert(!s.contains(dd.header(g).level));
            let sub = lemma_without_covers(dd, f, children[0], lo, s);
            assert(sub =~= s);
            lemma_sets_of_mk(dd, header, lo, hi, r, sub, false);
            sub
        },
        (
            NodeView::NonTerminal { header: fh, children: fc },
            NodeView::NonTerminal { header: gh, children: gc },
        ) => {
            assert(dd.is_nonterminal(f) && dd.is_nonterminal(g));
            assert(dd.children(f) == fc && dd.children(g) == gc);
            assert(proper(dd, f) && proper(dd, g));
            let l = dd.header(f).level;
            if f == g {
                lemma_set_holds(dd, f, s);
                s
            } else if dd.rank(f) > dd.rank(g) {
                let (lo, hi) = choose|lo: NodeId, hi: NodeId|
                    is_without(dd, fc[0], g, lo) && is_without(dd, fc[1], g, hi)
                        && #[trigger] is_mk(dd, fh, lo, hi, r);
                if s.contains(l) {
                    lemma_holds_local(dd, g, s.remove(l), s);
                    let sub = lemma_without_covers(dd, fc[1], g, hi, s.remove(l));
                    lemma_sets_of_mk(dd, fh, lo, hi, r, sub, true);
                    if lo != hi {
                        sub.insert(l)
                    } else {
                        sub
                    }
                } else {
                    let sub = lemma_without_covers(dd, fc[0], g, lo, s);
                    lemma_sets_of_mk(dd, fh, lo, hi, r, sub, false);
                    sub
                }
            } else if dd.rank(f) < dd.rank(g) {
                let lg = dd.header(g).level;
                assert(!s.contains(lg)) by {
                    if s.contains(lg) {
                        lemma_set_below(dd, f, s, lg);
                    }
                }
                lemma_without_covers(dd, f, gc[0], r, s)
            } else {
                let (lo, hi) = choose|lo: NodeId, hi: NodeId|
                    is_without(dd, fc[0], gc[0], lo) && is_without(dd, fc[1], gc[1], hi)
                        && #[trigger] is_mk(dd, fh, lo, hi, r);
                assert(dd.header(g).level == l);
                if s.contains(l) {
                    lemma_holds_local(dd, gc[1], s.remove(l), s);
                    let sub = lemma_without_covers(dd, fc[1], gc[1], hi, s.remove(l));
                    lemma_sets_of_mk(dd, fh, lo, hi, r, sub, true);
                    if lo != hi {
                        sub.insert(l)
                    } else {
                        sub
                    }
                } else {
                    let sub = lemma_without_covers(dd, fc[0], gc[0], lo, s);
                    lemma_sets_of_mk(dd, fh, lo, hi, r, sub, false);
                    sub
                }
            }
        },
        _ => s,
    }
}

/// The minimal-solution node covers the function: for every set of
/// variables for which the function of `f` holds, the minimal-solution
/// node `g` holds a set among the subsets.
pub proof fn lemma_minsol_covers(dd: TableView<bool>, f: NodeId, g: NodeId, t: Set<Level>) -> (sub:
    Set<Level>)
    requires
        dd.wf(),
        dd.has_constants(),
        is_minsol(dd, f, g),
        holds(dd, f, t),
    ensures
        sub.subset_of(t),
        has_set(dd, g, sub),
    decreases dd.rank(f),
{
    match dd.nodes[f as int] {
        NodeView::Terminal(v) => {
            assert(g == ONE);
            Set::<Level>::empty()
        },
        NodeView::Undet => t,
        NodeView::NonTerminal { header, children } => {
            assert(dd.is_nonterminal(f));
            assert(dd.node_linked(f));
            assert(dd.children(f) == children);
            let l = dd.header(f).level;
            let (lo, tmp, hi) = choose|lo: NodeId, tmp: NodeId, hi: NodeId|
                is_minsol(dd, children[0], lo) && is_minsol(dd, children[1], tmp) && is_without(
                    dd,
                    tmp,
                    children[0],
                    hi,
                ) && #[trigger] mk3(dd, header, lo, tmp, hi, g);
            if t.contains(l) {
                let s1 = lemma_minsol_covers(dd, children[1], tmp, t);
                if holds(dd, children[0], s1) {
                    let s0 = lemma_minsol_covers(dd, children[0], lo, s1);
                    lemma_sets_of_mk(dd, header, lo, hi, g, s0, false);
                    s0
                } else {
                    let s2 = lemma_without_covers(dd, tmp, children[0], hi, s1);
                    lemma_sets_of_mk(dd, header, lo, hi, g, s2, true);
                    if lo != hi {
                        s2.insert(l)
                    } else {
                        s2
                    }
                }
            } else {
                let s0 = lemma_minsol_covers(dd, children[0], lo, t);
                lemma_sets_of_mk(dd, header, lo, hi, g, s0, false);
                s0
            }
        },
    }
}

/// No set of the node is a part of another of its sets.
pub open spec fn antichain(dd: TableView<bool>, g: NodeId) -> bool {
    forall|s: Set<Level>, t: Set<Level>|
        #![trigger has_set(dd, g, s), has_set(dd, g, t)]
        has_set(dd, g, s) && has_set(dd, g, t) && s.subset_of(t) ==> s =~= t
}

/// Where no set of the minimal-solution node is a part of another, each
/// of its sets is a minimal solution: with any one of its variables
/// taken out, the function of `f` holds no more.
pub proof fn lemma_minsol_irredundant(
    dd: TableView<bool>,
    f: NodeId,
    g: NodeId,
    s: Set<Level>,
    x: Level,
)
    requires
        dd.wf(),
        dd.has_constants(),
        is_minsol(dd, f, g),
        antichain(dd, g),
        has_set(dd, g, s),
        s.contains(x),
    ensures
        !holds(dd, f, s.remove(x)),
{
    if holds(dd, f, s.remove(x)) {
        let sub = lemma_minsol_covers(dd, f, g, s.remove(x));
        assert(sub.subset_of(s));
        assert(!sub.contains(x));
        assert(sub =~= s);
    }
}

/// Where a set of the minimal-solution node is a part of another, the
/// larger one is no minimal solution of a monotone `f`: some variable
/// can be taken out of it, and the function still holds.
pub proof fn lemma_redundant_set(
    dd: TableView<bool>,
    f: NodeId,
    g: NodeId,
    s: Set<Level>,
    t: Set<Level>,
) -> (x: Level)
    requires
        dd.wf(),
        dd.has_constants(),
        monotone(dd, f),
        is_minsol(dd, f, g),
        has_set(dd, g, s),
        has_set(dd, g, t),
        s.subset_of(t),
        !(s =~= t),
    ensures
        t.contains(x),
        holds(dd, f, t.remove(x)),
{
    let x = choose|x: Level| t.contains(x) && !s.contains(x);
    lemma_minsol_sound(dd, f, g, s);
    lemma_holds_grows(dd, f, s, t.remove(x));
    x
}

/// Each path of `paths` with the level `l` as its next level.
pub open spec fn with_level(paths: Seq<Seq<Level>>, l: Level) -> Seq<Seq<Level>> {
    paths.map_values(|p: Seq<Level>| p.push(l))
}

/// The paths from `id` to a terminal of `ss`, each as the levels at which
/// it takes the high edge, the lowest first, in the order in which the
/// path iterator hands the paths out.
pub open spec fn zdd_level_paths(dd: TableView<bool>, ss: Seq<bool>, id: NodeId) -> Seq<Seq<Level>>
    decreases dd.rank(id),
{
    if !dd.valid(id) {
        Seq::empty()
    } else {
        match dd.nodes[id as int] {
            NodeView::Terminal(v) => if ss.contains(v) {
                seq![Seq::empty()]
            } else {
                Seq::empty()
            },
            NodeView::Undet => Seq::empty(),
            NodeView::NonTerminal { header, children } => {
                if children.len() == 2 && dd.rank(children[0]) < dd.rank(id) && dd.rank(
                    children[1],
                ) < dd.rank(id) {
                    zdd_level_paths(dd, ss, children[0]) + with_level(
                        zdd_level_paths(dd, ss, children[1]),
                        dd.header(id).level,
                    )
                } else {
                    Seq::empty()
                }
            },
        }
    }
}

/// The labels of the variables at the levels of `p`.
pub open spec fn labels_of(dd: TableView<bool>, p: Seq<Level>) -> Seq<Seq<char>> {
    p.map_values(|l: Level| crate::bdd_path::level_label(dd, l as nat))
}

/// The paths that the path iterator hands out are the labels of the
/// paths by levels.
pub proof fn lemma_paths_by_level(dd: TableView<bool>, ss: Seq<bool>, id: NodeId)
    requires
        dd.wf(),
    ensures
        crate::bdd_path::zdd_paths(dd, ss, id) == zdd_level_paths(dd, ss, id).map_values(
            |p: Seq<Level>| labels_of(dd, p),
        ),
    decreases dd.rank(id),
{
    let by_label = crate::bdd_path::zdd_paths(dd, ss, id);
    let by_level = zdd_level_paths(dd, ss, id);
    let mapped = by_level.map_values(|p: Seq<Level>| labels_of(dd, p));
    if dd.valid(id) {
        match dd.nodes[id as int] {
            NodeView::Terminal(v) => {
                if ss.contains(v) {
                    assert(labels_of(dd, Seq::<Level>::empty()) =~= Seq::<Seq<char>>::empty());
                }
                assert(by_label =~= mapped);
            },
            NodeView::Undet => {
                assert(by_label =~= mapped);
            },
            NodeView::NonTerminal { header, children } => {
                if children.len() == 2 && dd.rank(children[0]) < dd.rank(id) && dd.rank(
                    children[1],
                ) < dd.rank(id) {
                    assert(dd.is_nonterminal(id));
                    assert(dd.node_linked(id));
                    lemma_paths_by_level(dd, ss, children[0]);
                    lemma_paths_by_level(dd, ss, children[1]);
                    let l = dd.header(id).level;
                    crate::levels::lemma_header_at(dd, l, header);
                    let x = dd.header(id).label;
                    assert(crate::bdd_path::level_label(dd, l as nat) == x);
                    let lo = zdd_level_paths(dd, ss, children[0]);
                    let hi = zdd_level_paths(dd, ss, children[1]);
                    assert(by_label.len() == mapped.len());
                    assert forall|j: int| 0 <= j < by_label.len() implies by_label[j]
                        == mapped[j] by {
                        if j >= lo.len() {
                            let p = hi[j - lo.len()];
                            assert(by_level[j] == p.push(l));
                            assert(labels_of(dd, p.push(l)) =~= labels_of(dd, p).push(x));
                        } else {
                            assert(by_level[j] == lo[j]);
                        }
                    }
                    assert(by_label =~= mapped);
                } else {
                    assert(by_label =~= mapped);
                }
            },
        }
    } else {
        assert(by_label =~= mapped);
    }
}

/// Each path by levels holds levels below the node only, each once, and
/// for the target set that holds true alone its levels are one of the
/// sets of the node.
pub proof fn lemma_level_path_is_set(dd: TableView<bool>, ss: Seq<bool>, id: NodeId, j: int)
    requires
        dd.wf(),
        0 <= j < zdd_level_paths(dd, ss, id).len(),
    ensures
        forall|i: int|
            0 <= i < zdd_level_paths(dd, ss, id)[j].len() ==> (
            #[trigger] zdd_level_paths(dd, ss, id)[j][i]) < dd.rank(id),
        ss.contains(true) && !ss.contains(false) ==> has_set(
            dd,
            id,
            zdd_level_paths(dd, ss, id)[j].to_set(),
        ),
    decreases dd.rank(id),
{
    let all = zdd_level_paths(dd, ss, id);
    let p = all[j];
    match dd.nodes[id as int] {
        NodeView::Terminal(v) => {
            assert(p =~= Seq::<Level>::empty());
            assert(p.to_set() =~= Set::<Level>::empty());
        },
        NodeView::Undet => {},
        NodeView::NonTerminal { header, children } => {
            assert(dd.is_nonterminal(id));
            assert(dd.node_linked(id));
            assert(proper(dd, id));
            let l = dd.header(id).level;
            let lo = zdd_level_paths(dd, ss, children[0]);
            let hi = zdd_level_paths(dd, ss, children[1]);
            if j < lo.len() {
                lemma_level_path_is_set(dd, ss, children[0], j);
                assert(p == lo[j]);
                assert(!p.to_set().contains(l)) by {
                    if p.to_set().contains(l) {
                        let i = choose|i: int| 0 <= i < p.len() && p[i] == l;
                        assert(lo[j][i] < dd.rank(children[0]));
                    }
                }
            } else {
                let q = hi[j - lo.len()];
                lemma_level_path_is_set(dd, ss, children[1], j - lo.len());
                assert(p == q.push(l));
                assert forall|i: int| 0 <= i < p.len() implies (#[trigger] p[i]) < dd.rank(id) by {
                    if i < q.len() {
                        assert(p[i] == q[i]);
                        assert(hi[j - lo.len()][i] < dd.rank(children[1]));
                    }
                }
                assert(p.to_set().contains(l)) by {
                    assert(p[q.len() as int] == l);
                }
                assert(p.to_set().remove(l) =~= q.to_set()) by {
                    assert forall|y: Level| q.to_set().contains(y) implies p.to_set().contains(y)
                        && y != l by {
                        let i = choose|i: int| 0 <= i < q.len() && q[i] == y;
                        assert(p[i] == y);
                        assert(hi[j - lo.len()][i] < dd.rank(children[1]));
                    }
                    assert forall|y: Level| p.to_set().contains(y) && y != l implies q.to_set().contains(
                        y,
                    ) by {
                        let i = choose|i: int| 0 <= i < p.len() && p[i] == y;
                        assert(q[i] == y);
                    }
                }
            }
        },
    }
}

/// No path is handed out twice: two paths differ in the levels at which
/// they take the high edge.
pub proof fn lemma_level_paths_distinct(dd: TableView<bool>, ss: Seq<bool>, id: NodeId, i: int, j: int)
    requires
        dd.wf(),
        0 <= i < j < zdd_level_paths(dd, ss, id).len(),
    ensures
        zdd_level_paths(dd, ss, id)[i] != zdd_level_paths(dd, ss, id)[j],
    decreases dd.rank(id),
{
    let all = zdd_level_paths(dd, ss, id);
    match dd.nodes[id as int] {
        NodeView::NonTerminal { header, children } => {
            assert(dd.is_nonterminal(id));
            let l = dd.header(id).level;
            let lo = zdd_level_paths(dd, ss, children[0]);
            let hi = zdd_level_paths(dd, ss, children[1]);
            if j < lo.len() {
                lemma_level_paths_distinct(dd, ss, children[0], i, j);
            } else if i >= lo.len() {
                lemma_level_paths_distinct(dd, ss, children[1], i - lo.len(), j - lo.len());
                let a = hi[i - lo.len()];
                let b = hi[j - lo.len()];
                assert(all[i] == a.push(l) && all[j] == b.push(l));
                assert(all[i].drop_last() =~= a && all[j].drop_last() =~= b);
            } else {
                lemma_level_path_is_set(dd, ss, children[0], i);
                let b = hi[j - lo.len()];
                assert(all[i] == lo[i] && all[j] == b.push(l));
                assert(all[j].last() == l);
                if all[i].len() > 0 {
                    assert(lo[i][lo[i].len() - 1] < dd.rank(children[0]));
                }
            }
        },
        _ => {},
    }
}

} // verus!
