use crate::common::NodeId;
use crate::table::TableView;
use vstd::prelude::*;

verus! {

/// The nodes that a depth-first walk from `id` meets for the first time,
/// given the set `seen` of nodes met before: each node after the nodes
/// below it, the children of a node taken in their order.
pub open spec fn dfs<L>(dd: TableView<L>, id: NodeId, seen: Set<NodeId>) -> Seq<NodeId>
    decreases dd.rank(id), dd.children(id).len() + 1,
{
    if !dd.valid(id) || seen.contains(id) {
        Seq::empty()
    } else if dd.nodes[id as int] is NonTerminal {
        dfs_from(dd, id, 0, seen.insert(id)).push(id)
    } else {
        seq![id]
    }
}

/// The nodes that the walk meets below `id` through its children from
/// the `i`-th on.
pub open spec fn dfs_from<L>(dd: TableView<L>, id: NodeId, i: nat, seen: Set<NodeId>) -> Seq<
    NodeId,
>
    decreases dd.rank(id), dd.children(id).len() - i,
{
    if i >= dd.children(id).len() {
        Seq::empty()
    } else {
        let c = dd.children(id)[i as int];
        let first = if dd.rank(c) < dd.rank(id) {
            dfs(dd, c, seen)
        } else {
            Seq::empty()
        };
        first + dfs_from(dd, id, i + 1, seen.union(first.to_set()))
    }
}

/// No node occurs twice in `s`.
pub open spec fn distinct(s: Seq<NodeId>) -> bool {
    forall|i: int, j: int| 0 <= i < j < s.len() ==> s[i] != s[j]
}

/// Every node of `s` is in the table and none is in `seen`.
pub open spec fn fresh<L>(dd: TableView<L>, s: Seq<NodeId>, seen: Set<NodeId>) -> bool {
    forall|i: int| 0 <= i < s.len() ==> dd.valid(#[trigger] s[i]) && !seen.contains(s[i])
}

/// A walk meets only nodes of the table that were not seen before, and
/// each of them once.
pub proof fn lemma_dfs_fresh<L>(dd: TableView<L>, id: NodeId, seen: Set<NodeId>)
    ensures
        fresh(dd, dfs(dd, id, seen), seen),
        distinct(dfs(dd, id, seen)),
    decreases dd.rank(id), dd.children(id).len() + 1,
{
    if !dd.valid(id) || seen.contains(id) {
    } else if dd.nodes[id as int] is NonTerminal {
        lemma_dfs_from_fresh(dd, id, 0, seen.insert(id));
    } else {
    }
}

pub proof fn lemma_dfs_from_fresh<L>(dd: TableView<L>, id: NodeId, i: nat, seen: Set<NodeId>)
    ensures
        fresh(dd, dfs_from(dd, id, i, seen), seen),
        distinct(dfs_from(dd, id, i, seen)),
    decreases dd.rank(id), dd.children(id).len() - i,
{
    if i >= dd.children(id).len() {
    } else {
        let c = dd.children(id)[i as int];
        let first = if dd.rank(c) < dd.rank(id) {
            dfs(dd, c, seen)
        } else {
            Seq::empty()
        };
        if dd.rank(c) < dd.rank(id) {
            lemma_dfs_fresh(dd, c, seen);
        }
        let seen2 = seen.union(first.to_set());
        let rest = dfs_from(dd, id, i + 1, seen2);
        lemma_dfs_from_fresh(dd, id, i + 1, seen2);
        let all = first + rest;
        assert forall|a: int| 0 <= a < all.len() implies dd.valid(#[trigger] all[a])
            && !seen.contains(all[a]) by {
            if a < first.len() {
                assert(all[a] == first[a]);
            } else {
                assert(all[a] == rest[a - first.len()]);
            }
        }
        assert forall|a: int, b: int| 0 <= a < b < all.len() implies all[a] != all[b] by {
            if b < first.len() {
                assert(all[a] == first[a] && all[b] == first[b]);
            } else if a >= first.len() {
                assert(all[a] == rest[a - first.len()] && all[b] == rest[b - first.len()]);
            } else {
                assert(all[a] == first[a] && all[b] == rest[b - first.len()]);
                assert(first.to_set().contains(first[a]));
                assert(!seen2.contains(rest[b - first.len()]));
            }
        }
    }
}

/// A walk from a node from which no undetermined node can be reached
/// meets only such nodes.
pub proof fn lemma_dfs_undet_free<L>(dd: TableView<L>, id: NodeId, seen: Set<NodeId>)
    requires
        dd.undet_free(id),
    ensures
        forall|i: int|
            0 <= i < dfs(dd, id, seen).len() ==> dd.undet_free(#[trigger] dfs(dd, id, seen)[i]),
    decreases dd.rank(id), dd.children(id).len() + 1,
{
    if !dd.valid(id) || seen.contains(id) {
    } else if dd.nodes[id as int] is NonTerminal {
        lemma_dfs_from_undet_free(dd, id, 0, seen.insert(id));
        let below = dfs_from(dd, id, 0, seen.insert(id));
        let all = dfs(dd, id, seen);
        assert forall|i: int| 0 <= i < all.len() implies dd.undet_free(#[trigger] all[i]) by {
            if i < below.len() {
                assert(all[i] == below[i]);
            }
        }
    } else {
    }
}

pub proof fn lemma_dfs_from_undet_free<L>(dd: TableView<L>, id: NodeId, i: nat, seen: Set<NodeId>)
    requires
        dd.undet_free(id),
    ensures
        forall|j: int|
            0 <= j < dfs_from(dd, id, i, seen).len() ==> dd.undet_free(
                #[trigger] dfs_from(dd, id, i, seen)[j],
            ),
    decreases dd.rank(id), dd.children(id).len() - i,
{
    if i >= dd.children(id).len() {
    } else {
        let c = dd.children(id)[i as int];
        let first = if dd.rank(c) < dd.rank(id) {
            dfs(dd, c, seen)
        } else {
            Seq::empty()
        };
        if dd.rank(c) < dd.rank(id) {
            assert(dd.undet_free(c)) by {
                if dd.nodes[id as int] is NonTerminal {
                    assert(dd.children(id)[i as int] == c);
                }
            }
            lemma_dfs_undet_free(dd, c, seen);
        }
        let seen2 = seen.union(first.to_set());
        let rest = dfs_from(dd, id, i + 1, seen2);
        lemma_dfs_from_undet_free(dd, id, i + 1, seen2);
        let all = first + rest;
        assert forall|j: int| 0 <= j < all.len() implies dd.undet_free(#[trigger] all[j]) by {
            if j < first.len() {
                assert(all[j] == first[j]);
            } else {
                assert(all[j] == rest[j - first.len()]);
            }
        }
    }
}

/// A sequence of distinct nodes of the table is no longer than the table.
pub proof fn lemma_distinct_len<L>(dd: TableView<L>, s: Seq<NodeId>)
    requires
        distinct(s),
        forall|i: int| 0 <= i < s.len() ==> dd.valid(#[trigger] s[i]),
    ensures
        s.len() <= dd.nodes.len(),
{
    let n = dd.nodes.len() as int;
    let t = s.map_values(|x: NodeId| x as int);
    assert(t.no_duplicates()) by {
        assert forall|i: int, j: int| 0 <= i < t.len() && 0 <= j < t.len() && i != j implies t[i]
            != t[j] by {
            if i < j {
                assert(s[i] != s[j]);
            } else {
                assert(s[j] != s[i]);
            }
        }
    }
    t.unique_seq_to_set();
    vstd::set_lib::lemma_int_range(0, n);
    assert(t.to_set().subset_of(vstd::set_lib::set_int_range(0, n))) by {
        assert forall|x: int| t.to_set().contains(x) implies vstd::set_lib::set_int_range(
            0,
            n,
        ).contains(x) by {
            let i = choose|i: int| 0 <= i < t.len() && t[i] == x;
            assert(dd.valid(s[i]));
        }
    }
    vstd::set_lib::lemma_len_subset(t.to_set(), vstd::set_lib::set_int_range(0, n));
}

/// With every non-terminal of `d`, `d` holds the children of it.
pub open spec fn closed<L>(dd: TableView<L>, d: Set<NodeId>) -> bool {
    forall|x: NodeId, c: int|
        d.contains(x) && dd.is_nonterminal(x) && 0 <= c < dd.children(x).len() ==> d.contains(
            #[trigger] dd.children(x)[c],
        )
}

/// Each child of each non-terminal of `s` is in `d` or comes before the
/// node in `s`.
pub open spec fn settled<L>(dd: TableView<L>, d: Set<NodeId>, s: Seq<NodeId>) -> bool {
    forall|p: int, c: int|
        0 <= p < s.len() && dd.is_nonterminal(s[p]) && 0 <= c < dd.children(s[p]).len()
            ==> before(dd, d, s, p, c)
}

/// The `c`-th child of the node at place `p` of `s` is in `d` or at a
/// place before `p`.
pub open spec fn before<L>(dd: TableView<L>, d: Set<NodeId>, s: Seq<NodeId>, p: int, c: int) -> bool {
    d.contains(dd.children(s[p])[c]) || exists|q: int|
        0 <= q < p && #[trigger] s[q] == dd.children(s[p])[c]
}

/// What was seen before is done with, but for nodes that stand at or
/// above the rank `r`.
pub open spec fn done_below<L>(dd: TableView<L>, seen: Set<NodeId>, d: Set<NodeId>, r: nat) -> bool {
    &&& d.subset_of(seen)
    &&& forall|x: NodeId| #[trigger] seen.contains(x) ==> d.contains(x) || dd.rank(x) >= r
}

/// The nodes of two sequences, one after the other, are the nodes of
/// the one and of the other.
pub proof fn lemma_set_of_concat(a: Seq<NodeId>, b: Seq<NodeId>)
    ensures
        (a + b).to_set() =~= a.to_set().union(b.to_set()),
{
    assert forall|y: NodeId| (a + b).to_set().contains(y) <==> a.to_set().contains(y)
        || b.to_set().contains(y) by {
        if a.to_set().contains(y) {
            let j = choose|j: int| 0 <= j < a.len() && a[j] == y;
            assert((a + b)[j] == y);
        }
        if b.to_set().contains(y) {
            let j = choose|j: int| 0 <= j < b.len() && b[j] == y;
            assert((a + b)[a.len() + j] == y);
        }
        if (a + b).to_set().contains(y) {
            let j = choose|j: int| 0 <= j < (a + b).len() && (a + b)[j] == y;
            if j < a.len() {
                assert(a[j] == y);
            } else {
                assert(b[j - a.len()] == y);
            }
        }
    }
}

/// A walk leaves each node after its children: in what it meets, the
/// children of a node come before the node, or were done with before.
proof fn lemma_dfs_settled<L>(dd: TableView<L>, id: NodeId, seen: Set<NodeId>, d: Set<NodeId>)
    requires
        dd.wf(),
        dd.valid(id),
        closed(dd, d),
        done_below(dd, seen, d, dd.rank(id) + 1),
    ensures
        settled(dd, d, dfs(dd, id, seen)),
        closed(dd, d.union(dfs(dd, id, seen).to_set())),
        d.contains(id) || (dfs(dd, id, seen).len() > 0 && dfs(dd, id, seen).last() == id),
    decreases dd.rank(id), dd.children(id).len() + 1,
{
    let all = dfs(dd, id, seen);
    if seen.contains(id) {
        assert(d.union(all.to_set()) =~= d);
    } else if dd.nodes[id as int] is NonTerminal {
        let seen0 = seen.insert(id);
        let below = dfs_from(dd, id, 0, seen0);
        assert(done_below(dd, seen0, d, dd.rank(id)));
        lemma_dfs_from_settled(dd, id, 0, seen0, d);
        assert(all == below.push(id));
        let e = d.union(all.to_set());
        assert forall|p: int, c: int|
            0 <= p < all.len() && dd.is_nonterminal(all[p]) && 0 <= c < dd.children(
                all[p],
            ).len() implies before(dd, d, all, p, c) by {
            if p < below.len() {
                assert(all[p] == below[p]);
                assert(before(dd, d, below, p, c));
                if !d.contains(dd.children(below[p])[c]) {
                    let q = choose|q: int| 0 <= q < p && #[trigger] below[q] == dd.children(below[p])[c];
                    assert(all[q] == below[q]);
                }
            } else {
                let ch = dd.children(id)[c];
                assert(d.union(below.to_set()).contains(ch));
                if !d.contains(ch) {
                    let q = choose|q: int| 0 <= q < below.len() && below[q] == ch;
                    assert(all[q] == ch);
                }
            }
        }
        assert forall|x: NodeId, c: int|
            e.contains(x) && dd.is_nonterminal(x) && 0 <= c < dd.children(x).len() implies e.contains(
            #[trigger] dd.children(x)[c],
        ) by {
            let ch = dd.children(x)[c];
            lemma_set_of_concat(below, seq![id]);
            assert(all =~= below + seq![id]);
            if d.union(below.to_set()).contains(x) {
                assert(d.union(below.to_set()).contains(ch));
            } else {
                assert(seq![id].to_set().contains(x));
                assert(x == id);
                assert(d.union(below.to_set()).contains(ch));
            }
        }
        assert(all.last() == id);
    } else {
        assert(all =~= seq![id]);
        assert(all[0] == id);
        let e = d.union(all.to_set());
        assert forall|x: NodeId, c: int|
            e.contains(x) && dd.is_nonterminal(x) && 0 <= c < dd.children(x).len() implies e.contains(
            #[trigger] dd.children(x)[c],
        ) by {
            if !d.contains(x) {
                let j = choose|j: int| 0 <= j < all.len() && all[j] == x;
                assert(x == id);
            }
        }
    }
}

proof fn lemma_dfs_from_settled<L>(dd: TableView<L>, id: NodeId, i: nat, seen: Set<NodeId>, d: Set<NodeId>)
    requires
        dd.wf(),
        dd.is_nonterminal(id),
        closed(dd, d),
        done_below(dd, seen, d, dd.rank(id)),
    ensures
        settled(dd, d, dfs_from(dd, id, i, seen)),
        closed(dd, d.union(dfs_from(dd, id, i, seen).to_set())),
        forall|c: int|
            i <= c < dd.children(id).len() ==> d.union(dfs_from(dd, id, i, seen).to_set()).contains(
                #[trigger] dd.children(id)[c],
            ),
    decreases dd.rank(id), dd.children(id).len() - i,
{
    let all = dfs_from(dd, id, i, seen);
    if i >= dd.children(id).len() {
        assert(d.union(all.to_set()) =~= d);
    } else {
        let ch = dd.children(id)[i as int];
        assert(dd.node_linked(id));
        assert(dd.node_descends(id));
        assert(dd.valid(ch) && dd.rank(ch) < dd.rank(id));
        let first = dfs(dd, ch, seen);
        assert(done_below(dd, seen, d, dd.rank(ch) + 1));
        lemma_dfs_settled(dd, ch, seen, d);
        let d2 = d.union(first.to_set());
        let seen2 = seen.union(first.to_set());
        assert(done_below(dd, seen2, d2, dd.rank(id)));
        let rest = dfs_from(dd, id, i + 1, seen2);
        lemma_dfs_from_settled(dd, id, i + 1, seen2, d2);
        assert(all == first + rest);
        lemma_set_of_concat(first, rest);
        assert(d.union(all.to_set()) =~= d2.union(rest.to_set()));
        assert forall|p: int, c: int|
            0 <= p < all.len() && dd.is_nonterminal(all[p]) && 0 <= c < dd.children(
                all[p],
            ).len() implies before(dd, d, all, p, c) by {
            if p < first.len() {
                assert(all[p] == first[p]);
                assert(before(dd, d, first, p, c));
                if !d.contains(dd.children(first[p])[c]) {
                    let q = choose|q: int| 0 <= q < p && #[trigger] first[q] == dd.children(first[p])[c];
                    assert(all[q] == first[q]);
                }
            } else {
                let place = p - first.len();
                assert(all[p] == rest[place]);
                assert(before(dd, d2, rest, place, c));
                let target = dd.children(rest[place])[c];
                if d2.contains(target) {
                    if !d.contains(target) {
                        let q = choose|q: int| 0 <= q < first.len() && first[q] == target;
                        assert(all[q] == target);
                    }
                } else {
                    let found = choose|q: int| 0 <= q < place && #[trigger] rest[q] == target;
                    assert(all[first.len() + found] == target);
                }
            }
        }
        assert forall|c: int| i <= c < dd.children(id).len() implies d.union(
            all.to_set(),
        ).contains(#[trigger] dd.children(id)[c]) by {
            if c == i {
                if !d.contains(ch) {
                    assert(first.last() == ch);
                    assert(first.to_set().contains(ch));
                }
            }
        }
    }
}

/// `order` is a topological order of the nodes that can be reached from
/// `f`: it starts with `f`, holds nodes of the table, none twice, and
/// each child of each of its nodes after the node.
pub open spec fn is_topological<L>(dd: TableView<L>, f: NodeId, order: Seq<NodeId>) -> bool {
    &&& order.len() > 0
    &&& order[0] == f
    &&& distinct(order)
    &&& forall|i: int| 0 <= i < order.len() ==> dd.valid(#[trigger] order[i])
    &&& forall|i: int, c: int|
        0 <= i < order.len() && dd.is_nonterminal(order[i]) && 0 <= c < dd.children(order[i]).len()
            ==> #[trigger] later(dd, order, i, c)
}

/// The `c`-th child of the node at place `i` of `order` stands at a
/// later place.
pub open spec fn later<L>(dd: TableView<L>, order: Seq<NodeId>, i: int, c: int) -> bool {
    exists|j: int| i < j < order.len() && #[trigger] order[j] == dd.children(order[i])[c]
}

/// The order in which a walk from `f` leaves the nodes, reversed, is a
/// topological order of what can be reached from `f`.
pub proof fn lemma_dfs_topological<L>(dd: TableView<L>, f: NodeId)
    requires
        dd.wf(),
        dd.valid(f),
    ensures
        is_topological(dd, f, dfs(dd, f, Set::empty()).reverse()),
{
    let seen = Set::<NodeId>::empty();
    let post = dfs(dd, f, seen);
    let order = post.reverse();
    lemma_dfs_fresh(dd, f, seen);
    lemma_dfs_settled(dd, f, seen, seen);
    let n = post.len() as int;
    assert(order[0] == post[n - 1]);
    assert forall|i: int, j: int| 0 <= i < j < order.len() implies order[i] != order[j] by {
        assert(order[i] == post[n - 1 - i] && order[j] == post[n - 1 - j]);
    }
    assert forall|i: int| 0 <= i < order.len() implies dd.valid(#[trigger] order[i]) by {
        assert(order[i] == post[n - 1 - i]);
    }
    assert forall|i: int, c: int|
        0 <= i < order.len() && dd.is_nonterminal(order[i]) && 0 <= c < dd.children(
            order[i],
        ).len() implies #[trigger] later(dd, order, i, c) by {
        let p = n - 1 - i;
        assert(order[i] == post[p]);
        assert(before(dd, seen, post, p, c));
        let q = choose|q: int| 0 <= q < p && #[trigger] post[q] == dd.children(post[p])[c];
        assert(order[n - 1 - q] == post[q]);
    }
}

/// A walk does not depend on whether a node that stands higher was seen.
pub proof fn lemma_dfs_ignores<L>(dd: TableView<L>, id: NodeId, seen: Set<NodeId>, x: NodeId)
    requires
        dd.rank(x) > dd.rank(id),
    ensures
        dfs(dd, id, seen.insert(x)) == dfs(dd, id, seen),
    decreases dd.rank(id), dd.children(id).len() + 1,
{
    if !dd.valid(id) || seen.contains(id) {
    } else if dd.nodes[id as int] is NonTerminal {
        assert(seen.insert(x).insert(id) =~= seen.insert(id).insert(x));
        lemma_dfs_from_ignores(dd, id, 0, seen.insert(id), x);
    }
}

/// The walk through the children of `id` does not depend on whether a
/// node that stands as high as `id` or higher was seen.
pub proof fn lemma_dfs_from_ignores<L>(
    dd: TableView<L>,
    id: NodeId,
    i: nat,
    seen: Set<NodeId>,
    x: NodeId,
)
    requires
        dd.rank(x) >= dd.rank(id),
    ensures
        dfs_from(dd, id, i, seen.insert(x)) == dfs_from(dd, id, i, seen),
    decreases dd.rank(id), dd.children(id).len() - i,
{
    if i < dd.children(id).len() {
        let c = dd.children(id)[i as int];
        if dd.rank(c) < dd.rank(id) {
            lemma_dfs_ignores(dd, c, seen, x);
        }
        let first = if dd.rank(c) < dd.rank(id) {
            dfs(dd, c, seen)
        } else {
            Seq::empty()
        };
        assert(seen.insert(x).union(first.to_set()) =~= seen.union(first.to_set()).insert(x));
        lemma_dfs_from_ignores(dd, id, i + 1, seen.union(first.to_set()), x);
    }
}

/// The nodes seen after a walk from `id` that began with `seen`.
pub open spec fn seen_after<L>(dd: TableView<L>, id: NodeId, seen: Set<NodeId>) -> Set<NodeId> {
    seen.union(dfs(dd, id, seen).to_set())
}

/// A walk from a node that was seen, or from one without children, adds
/// at most that node.
pub proof fn lemma_walk_leaf<L>(dd: TableView<L>, id: NodeId, seen: Set<NodeId>)
    requires
        dd.valid(id),
        seen.contains(id) || !dd.is_nonterminal(id),
    ensures
        seen_after(dd, id, seen) == seen.insert(id),
{
    if seen.contains(id) {
        assert(dfs(dd, id, seen).to_set() =~= Set::<NodeId>::empty());
    } else {
        assert(dfs(dd, id, seen) =~= seq![id]);
        assert(seq![id][0] == id);
    }
    assert(seen_after(dd, id, seen) =~= seen.insert(id));
}

proof fn lemma_walk_pair_set(first: Seq<NodeId>, second: Seq<NodeId>, id: NodeId)
    ensures
        (first + second).push(id).to_set() =~= first.to_set().union(second.to_set()).insert(id),
{
    let both = first + second;
    lemma_set_of_concat(first, second);
    lemma_set_of_concat(both, seq![id]);
    assert(both.push(id) =~= both + seq![id]);
    assert(seq![id].to_set() =~= Set::<NodeId>::empty().insert(id)) by {
        assert(seq![id][0] == id);
    }
}

/// A walk from a node with two children sees what the walk from the
/// first child sees, then what the walk from the second sees, and the
/// node itself.
pub proof fn lemma_walk_pair<L>(dd: TableView<L>, id: NodeId, seen: Set<NodeId>)
    requires
        dd.wf(),
        dd.valid(id),
        dd.is_nonterminal(id),
        dd.children(id).len() == 2,
        !seen.contains(id),
    ensures
        seen_after(dd, id, seen) == seen_after(
            dd,
            dd.children(id)[1],
            seen_after(dd, dd.children(id)[0], seen),
        ).insert(id),
{
    let c0 = dd.children(id)[0];
    let c1 = dd.children(id)[1];
    assert(dd.node_descends(id));
    assert(dd.rank(c0) < dd.rank(id));
    assert(dd.rank(c1) < dd.rank(id));
    let seen0 = seen.insert(id);
    let first = dfs(dd, c0, seen);
    let mid = seen.union(first.to_set());
    let second = dfs(dd, c1, mid);
    let met = dfs(dd, id, seen);
    lemma_dfs_ignores(dd, c0, seen, id);
    assert(seen0.union(first.to_set()) =~= mid.insert(id));
    lemma_dfs_ignores(dd, c1, mid, id);
    let seen1 = seen0.union(first.to_set());
    let tail = dfs_from(dd, id, 2, seen1.union(second.to_set()));
    assert(tail =~= Seq::<NodeId>::empty());
    assert(dfs_from(dd, id, 1, seen1) =~= second + tail);
    assert(second + tail =~= second);
    assert(dfs_from(dd, id, 0, seen0) =~= first + second);
    assert(met =~= (first + second).push(id));
    lemma_walk_pair_set(first, second, id);
    assert(seen_after(dd, id, seen) =~= seen_after(dd, c1, seen_after(dd, c0, seen)).insert(id));
}

/// The nodes seen after the walk through the children of `id` from the
/// `i`-th on, which began with `seen`.
pub open spec fn seen_from<L>(dd: TableView<L>, id: NodeId, i: nat, seen: Set<NodeId>) -> Set<
    NodeId,
> {
    seen.union(dfs_from(dd, id, i, seen).to_set())
}

/// The walk through the children from the `i`-th on is the walk from
/// the `i`-th child and then the walk through the children after it.
pub proof fn lemma_seen_from_step<L>(dd: TableView<L>, id: NodeId, i: nat, seen: Set<NodeId>)
    requires
        dd.wf(),
        dd.is_nonterminal(id),
        i < dd.children(id).len(),
    ensures
        seen_from(dd, id, i, seen) == seen_from(
            dd,
            id,
            i + 1,
            seen_after(dd, dd.children(id)[i as int], seen),
        ),
{
    let c = dd.children(id)[i as int];
    assert(dd.node_descends(id));
    assert(dd.rank(c) < dd.rank(id));
    let first = dfs(dd, c, seen);
    let rest = dfs_from(dd, id, i + 1, seen.union(first.to_set()));
    assert(dfs_from(dd, id, i, seen) == first + rest);
    lemma_set_of_concat(first, rest);
    assert(seen.union((first + rest).to_set()) =~= seen.union(first.to_set()).union(
        rest.to_set(),
    ));
}

/// After the last child the walk through the children sees nothing new.
pub proof fn lemma_seen_from_end<L>(dd: TableView<L>, id: NodeId, i: nat, seen: Set<NodeId>)
    requires
        i >= dd.children(id).len(),
    ensures
        seen_from(dd, id, i, seen) == seen,
{
    assert(dfs_from(dd, id, i, seen).to_set() =~= Set::<NodeId>::empty());
    assert(seen.union(Set::<NodeId>::empty()) =~= seen);
}

/// A walk from a node with children sees what the walk through its
/// children sees, and the node itself.
pub proof fn lemma_walk_node<L>(dd: TableView<L>, id: NodeId, seen: Set<NodeId>)
    requires
        dd.is_nonterminal(id),
        !seen.contains(id),
    ensures
        seen_after(dd, id, seen) == seen_from(dd, id, 0, seen).insert(id),
{
    let below = dfs_from(dd, id, 0, seen);
    lemma_dfs_from_ignores(dd, id, 0, seen, id);
    assert(dfs(dd, id, seen) == below.push(id));
    lemma_set_of_concat(below, seq![id]);
    assert(below.push(id) =~= below + seq![id]);
    assert(seq![id].to_set() =~= Set::<NodeId>::empty().insert(id)) by {
        assert(seq![id][0] == id);
    }
    assert(seen.union(below.push(id).to_set()) =~= seen.union(below.to_set()).insert(id));
}

/// Every child of every node is a node of the table.
pub open spec fn linked<L>(dd: TableView<L>) -> bool {
    forall|x: NodeId, i: int|
        dd.is_nonterminal(x) && 0 <= i < dd.children(x).len() ==> dd.valid(
            #[trigger] dd.children(x)[i],
        )
}

/// In a well formed table every child is a node of the table.
pub proof fn lemma_wf_linked<L>(dd: TableView<L>)
    requires
        dd.wf(),
    ensures
        linked(dd),
{
    assert forall|x: NodeId, i: int|
        dd.is_nonterminal(x) && 0 <= i < dd.children(x).len() implies dd.valid(
        #[trigger] dd.children(x)[i],
    ) by {
        assert(dd.valid(x));
        assert(dd.node_linked(x));
    }
}

/// An edge leads from `x` to `y`.
pub open spec fn edge<L>(dd: TableView<L>, x: NodeId, y: NodeId) -> bool {
    dd.is_nonterminal(x) && dd.children(x).contains(y)
}

/// Each node of `p` but the first is a child of the node before it.
pub open spec fn is_walk<L>(dd: TableView<L>, p: Seq<NodeId>) -> bool {
    forall|i: int| 0 < i < p.len() ==> edge(dd, p[i - 1], #[trigger] p[i])
}

/// A cycle can be reached from `f`: some walk along the edges begins at
/// `f` and comes to a node for the second time.
pub open spec fn cyclic_from<L>(dd: TableView<L>, f: NodeId) -> bool {
    exists|p: Seq<NodeId>| #[trigger] is_walk(dd, p) && p.len() > 0 && p[0] == f && !distinct(p)
}

/// Some walk that begins with `start` comes to a node for the second
/// time.
pub open spec fn cycle_after<L>(dd: TableView<L>, start: Seq<NodeId>) -> bool {
    exists|p: Seq<NodeId>| #[trigger] is_walk(dd, p) && start.is_prefix_of(p) && !distinct(p)
}

/// A walk that comes to one of its own nodes again shows a cycle.
pub proof fn lemma_cycle_found<L>(dd: TableView<L>, stack: Seq<NodeId>, x: NodeId)
    requires
        is_walk(dd, stack),
        stack.len() > 0 ==> edge(dd, stack.last(), x),
        stack.contains(x),
    ensures
        cycle_after(dd, stack.push(x)),
{
    let p = stack.push(x);
    let j = choose|j: int| 0 <= j < stack.len() && stack[j] == x;
    assert(p[j] == x && p[stack.len() as int] == x);
    assert(is_walk(dd, p)) by {
        assert forall|i: int| 0 < i < p.len() implies edge(dd, p[i - 1], #[trigger] p[i]) by {
            if i < stack.len() {
                assert(edge(dd, stack[i - 1], stack[i]));
            }
        }
    }
    assert(p.is_prefix_of(p));
}

/// A cycle after a longer start is a cycle after a shorter one.
pub proof fn lemma_cycle_after_shorter<L>(dd: TableView<L>, start: Seq<NodeId>, x: NodeId)
    requires
        cycle_after(dd, start.push(x)),
    ensures
        cycle_after(dd, start),
{
    let p = choose|p: Seq<NodeId>| #[trigger]
        is_walk(dd, p) && start.push(x).is_prefix_of(p) && !distinct(p);
    assert(start.is_prefix_of(p)) by {
        assert(start =~= start.push(x).subrange(0, start.len() as int));
        assert forall|i: int| 0 <= i < start.len() implies start[i] == p[i] by {
            assert(start.push(x)[i] == p[i]);
        }
    }
}

/// A cycle after the walk that holds `f` alone can be reached from `f`.
pub proof fn lemma_cycle_after_root<L>(dd: TableView<L>, f: NodeId)
    requires
        cycle_after(dd, Seq::<NodeId>::empty().push(f)),
    ensures
        cyclic_from(dd, f),
{
    let start = Seq::<NodeId>::empty().push(f);
    let p = choose|p: Seq<NodeId>| #[trigger]
        is_walk(dd, p) && start.is_prefix_of(p) && !distinct(p);
    assert(start[0] == p[0]);
}

/// The place of `x` in `s`.
pub open spec fn place_of(s: Seq<NodeId>, x: NodeId) -> int {
    choose|q: int| 0 <= q < s.len() && s[q] == x
}

/// Along a walk that begins in `post`, a sequence in which each child
/// comes before its node, the places go down step by step.
proof fn lemma_walk_goes_down<L>(dd: TableView<L>, post: Seq<NodeId>, p: Seq<NodeId>, i: int)
    requires
        settled(dd, Set::empty(), post),
        distinct(post),
        is_walk(dd, p),
        0 <= i < p.len(),
        post.contains(p[0]),
    ensures
        post.contains(p[i]),
        place_of(post, p[i]) <= place_of(post, p[0]) - i,
    decreases i,
{
    if i > 0 {
        lemma_walk_goes_down(dd, post, p, i - 1);
        let x = p[i - 1];
        let y = p[i];
        let at = place_of(post, x);
        assert(edge(dd, x, y));
        let c = choose|c: int| 0 <= c < dd.children(x).len() && dd.children(x)[c] == y;
        assert(before(dd, Set::empty(), post, at, c));
        let q = choose|q: int| 0 <= q < at && #[trigger] post[q] == dd.children(post[at])[c];
        assert(post[q] == y);
        let found = place_of(post, y);
        assert(0 <= found < post.len() && post[found] == y);
        if found < q {
            assert(post[found] != post[q]);
        }
        if q < found {
            assert(post[q] != post[found]);
        }
    }
}

/// Where each child comes before its node in a sequence without
/// repetition, no cycle can be reached from a node of the sequence.
pub proof fn lemma_sorted_acyclic<L>(dd: TableView<L>, f: NodeId, post: Seq<NodeId>)
    requires
        settled(dd, Set::empty(), post),
        distinct(post),
        post.contains(f),
    ensures
        !cyclic_from(dd, f),
{
    if cyclic_from(dd, f) {
        let p = choose|p: Seq<NodeId>| #[trigger]
            is_walk(dd, p) && p.len() > 0 && p[0] == f && !distinct(p);
        let (i, j) = choose|i: int, j: int| 0 <= i < j < p.len() && p[i] == p[j];
        lemma_walk_goes_down(dd, post, p, i);
        let rest = p.subrange(i, p.len() as int);
        assert(is_walk(dd, rest)) by {
            assert forall|k: int| 0 < k < rest.len() implies edge(
                dd,
                rest[k - 1],
                #[trigger] rest[k],
            ) by {
                assert(edge(dd, p[i + k - 1], p[i + k]));
            }
        }
        assert(rest[0] == p[i]);
        lemma_walk_goes_down(dd, post, rest, j - i);
        assert(rest[j - i] == p[j]);
    }
}

/// In a well formed table no cycle can be reached.
pub proof fn lemma_wf_acyclic<L>(dd: TableView<L>, f: NodeId)
    requires
        dd.wf(),
    ensures
        !cyclic_from(dd, f),
{
    if cyclic_from(dd, f) {
        let p = choose|p: Seq<NodeId>| #[trigger]
            is_walk(dd, p) && p.len() > 0 && p[0] == f && !distinct(p);
        let (i, j) = choose|i: int, j: int| 0 <= i < j < p.len() && p[i] == p[j];
        lemma_walk_loses_rank(dd, p, i, j);
    }
}

proof fn lemma_walk_loses_rank<L>(dd: TableView<L>, p: Seq<NodeId>, i: int, j: int)
    requires
        dd.wf(),
        is_walk(dd, p),
        0 <= i <= j < p.len(),
    ensures
        dd.rank(p[j]) + (j - i) <= dd.rank(p[i]),
    decreases j - i,
{
    if i < j {
        lemma_walk_loses_rank(dd, p, i, j - 1);
        let x = p[j - 1];
        assert(edge(dd, x, p[j]));
        let c = choose|c: int| 0 <= c < dd.children(x).len() && dd.children(x)[c] == p[j];
        assert(dd.valid(x));
        assert(dd.node_descends(x));
        assert(dd.rank(dd.children(x)[c]) < dd.rank(x));
    }
}

/// A sequence without repetition in which each child comes before its
/// node and `f` comes last is, reversed, a topological order from `f`.
pub proof fn lemma_reverse_topological<L>(dd: TableView<L>, f: NodeId, post: Seq<NodeId>)
    requires
        distinct(post),
        forall|i: int| 0 <= i < post.len() ==> dd.valid(#[trigger] post[i]),
        settled(dd, Set::empty(), post),
        post.len() > 0,
        post.last() == f,
    ensures
        is_topological(dd, f, post.reverse()),
{
    let order = post.reverse();
    let n = post.len() as int;
    assert(order[0] == post[n - 1]);
    assert forall|i: int, j: int| 0 <= i < j < order.len() implies order[i] != order[j] by {
        assert(order[i] == post[n - 1 - i] && order[j] == post[n - 1 - j]);
    }
    assert forall|i: int| 0 <= i < order.len() implies dd.valid(#[trigger] order[i]) by {
        assert(order[i] == post[n - 1 - i]);
    }
    assert forall|i: int, c: int|
        0 <= i < order.len() && dd.is_nonterminal(order[i]) && 0 <= c < dd.children(
            order[i],
        ).len() implies #[trigger] later(dd, order, i, c) by {
        let p = n - 1 - i;
        assert(order[i] == post[p]);
        assert(before(dd, Set::empty(), post, p, c));
        let q = choose|q: int| 0 <= q < p && #[trigger] post[q] == dd.children(post[p])[c];
        assert(order[n - 1 - q] == post[q]);
    }
}

} // verus!
