use crate::common::{contains, Error, HeaderId, Leaf, Level, NodeId};
use crate::levels::{expected, headers_by_level, lemma_header_at, level_headers, levels_named};
use crate::mdd_count::{
    count_in, edge_num_at, lemma_mdd_count_of_nothing, lemma_zmdd_count_of_nothing,
    mdd_count_fits, mdd_count_spec, mdd_count_sum, zmdd_count_fits, zmdd_count_rec,
    zmdd_count_spec, zmdd_count_sum,
};
use crate::mtmdd2::{bool_targets, to_bool_targets, MDDValue, MtMdd2Manager};
use crate::table::{Node, NodeTable, NodeView, TableView};
use std::collections::HashMap;
use vstd::prelude::*;

verus! {

/// One assignment: for each variable its label and the index of its
/// value, the highest variable first.
pub type Assignment = Seq<(Seq<char>, usize)>;

/// An instruction on the stack of a path iterator over an MDD.
pub enum MddStackValue {
    /// Enumerate the assignments of the variables up to the given level
    /// that lead from the node to a terminal of the target set.
    Node(Option<Level>, NodeId),
    /// Put a variable with the index of its value on the path.
    Push(String, usize),
    /// Take the last variable off the path.
    Pop(String),
}

/// An instruction as a mathematical value.
pub enum MddInstrView {
    Node(Option<Level>, NodeId),
    Push(Seq<char>, usize),
    Pop(Seq<char>),
}

impl View for MddStackValue {
    type V = MddInstrView;

    open spec fn view(&self) -> MddInstrView {
        match self {
            MddStackValue::Node(l, id) => MddInstrView::Node(*l, *id),
            MddStackValue::Push(x, i) => MddInstrView::Push(x@, *i),
            MddStackValue::Pop(x) => MddInstrView::Pop(x@),
        }
    }
}

/// The label of the variable at level `l`.
pub open spec fn label_at<L>(dd: TableView<L>, l: nat) -> Seq<char> {
    dd.headers[dd.header_at(l as Level) as int].label
}

/// Each assignment of `paths` with `entry` before it.
pub open spec fn with_first(paths: Seq<Assignment>, entry: (Seq<char>, usize)) -> Seq<Assignment> {
    paths.map_values(|p: Assignment| seq![entry] + p)
}

/// Each assignment of `paths` after the entries of `path`.
pub open spec fn after(paths: Seq<Assignment>, path: Assignment) -> Seq<Assignment> {
    paths.map_values(|p: Assignment| path + p)
}

/// The node `id` decides on the highest of the `k` lowest variables.
pub open spec fn decides<L>(dd: TableView<L>, k: nat, id: NodeId) -> bool {
    dd.is_nonterminal(id) && dd.rank(id) == k
}

/// The node to go on with for value `i` of the highest of the `k` lowest
/// variables: the child for that value where `id` decides on the
/// variable, `id` itself where it does not.
pub open spec fn branch<L>(dd: TableView<L>, k: nat, id: NodeId, i: int) -> NodeId {
    if decides(dd, k, id) && 0 <= i < dd.children(id).len() {
        dd.children(id)[i]
    } else {
        id
    }
}

/// The assignments of the `k` lowest variables under which the diagram,
/// entered at `id`, ends in a terminal of `ss`, in the order of the
/// enumeration: by the value of the highest of these variables, from
/// its first value on. A variable that the diagram does not decide on
/// takes every one of its values.
pub open spec fn mdd_paths<L>(dd: TableView<L>, ss: Seq<L>, k: nat, id: NodeId) -> Seq<Assignment>
    decreases k, 1nat, 0nat,
{
    if !dd.valid(id) || dd.nodes[id as int] is Undet {
        Seq::empty()
    } else if k == 0 {
        match dd.nodes[id as int] {
            NodeView::Terminal(v) => if ss.contains(v) {
                seq![Seq::empty()]
            } else {
                Seq::empty()
            },
            _ => Seq::empty(),
        }
    } else {
        mdd_paths_from(dd, ss, k, id, 0)
    }
}

/// The assignments of `mdd_paths` in which the highest variable has a
/// value from the `m`-th on.
pub open spec fn mdd_paths_from<L>(
    dd: TableView<L>,
    ss: Seq<L>,
    k: nat,
    id: NodeId,
    m: nat,
) -> Seq<Assignment>
    decreases k, 0nat, edge_num_at(dd, (k - 1) as nat) - m,
{
    if k == 0 || m >= edge_num_at(dd, (k - 1) as nat) {
        Seq::empty()
    } else {
        with_first(
            mdd_paths(dd, ss, (k - 1) as nat, branch(dd, k, id, m as int)),
            (label_at(dd, (k - 1) as nat), m as usize),
        ) + mdd_paths_from(dd, ss, k, id, m + 1)
    }
}

/// The path without its last entry; an empty path stays.
pub open spec fn pop_entry(path: Assignment) -> Assignment {
    if path.len() > 0 {
        path.drop_last()
    } else {
        path
    }
}

/// The assignments that the iterator still has to hand out, in their
/// order, given its stack and the entries on its path.
pub open spec fn mdd_pending<L>(
    dd: TableView<L>,
    ss: Seq<L>,
    stack: Seq<MddInstrView>,
    path: Assignment,
) -> Seq<Assignment>
    decreases stack.len(),
{
    if stack.len() == 0 {
        Seq::empty()
    } else {
        let rest = stack.drop_last();
        match stack.last() {
            MddInstrView::Push(x, i) => mdd_pending(dd, ss, rest, path.push((x, i))),
            MddInstrView::Pop(_) => mdd_pending(dd, ss, rest, pop_entry(path)),
            MddInstrView::Node(level, id) => after(mdd_paths(dd, ss, expected(level), id), path)
                + mdd_pending(dd, ss, rest, path),
        }
    }
}

/// An upper bound on the steps that a node instruction with `k`
/// variables to go can cause.
pub open spec fn walk_cost<L>(dd: TableView<L>, k: nat) -> nat
    decreases k,
{
    if k == 0 {
        1
    } else {
        edge_num_at(dd, (k - 1) as nat) * (walk_cost(dd, (k - 1) as nat) + 2) + 1
    }
}

pub open spec fn mdd_instr_cost<L>(dd: TableView<L>, i: MddInstrView) -> nat {
    match i {
        MddInstrView::Node(level, _) => walk_cost(dd, expected(level)),
        _ => 1,
    }
}

/// An upper bound on the steps that a stack can cause.
pub open spec fn mdd_stack_cost<L>(dd: TableView<L>, stack: Seq<MddInstrView>) -> nat
    decreases stack.len(),
{
    if stack.len() == 0 {
        0
    } else {
        mdd_stack_cost(dd, stack.drop_last()) + mdd_instr_cost(dd, stack.last())
    }
}

pub open spec fn mdd_stack_view(stack: Seq<MddStackValue>) -> Seq<MddInstrView> {
    stack.map_values(|i: MddStackValue| i@)
}

pub open spec fn entries_view(v: Seq<(String, usize)>) -> Assignment {
    v.map_values(|e: (String, usize)| (e.0@, e.1))
}

proof fn lemma_mdd_pending_push<L>(
    dd: TableView<L>,
    ss: Seq<L>,
    rest: Seq<MddInstrView>,
    i: MddInstrView,
    path: Assignment,
)
    ensures
        mdd_pending(dd, ss, rest.push(i), path) == match i {
            MddInstrView::Push(x, v) => mdd_pending(dd, ss, rest, path.push((x, v))),
            MddInstrView::Pop(_) => mdd_pending(dd, ss, rest, pop_entry(path)),
            MddInstrView::Node(level, id) => after(mdd_paths(dd, ss, expected(level), id), path)
                + mdd_pending(dd, ss, rest, path),
        },
        mdd_stack_cost(dd, rest.push(i)) == mdd_stack_cost(dd, rest) + mdd_instr_cost(dd, i),
{
    assert(rest.push(i).drop_last() =~= rest);
    assert(rest.push(i).last() == i);
}

proof fn lemma_after_first(paths: Seq<Assignment>, entry: (Seq<char>, usize), path: Assignment)
    ensures
        after(with_first(paths, entry), path) == after(paths, path.push(entry)),
{
    let a = after(with_first(paths, entry), path);
    let b = after(paths, path.push(entry));
    assert(a.len() == b.len());
    assert forall|i: int| 0 <= i < a.len() implies a[i] == b[i] by {
        assert(a[i] == path + (seq![entry] + paths[i]));
        assert(b[i] == path.push(entry) + paths[i]);
        assert(path + (seq![entry] + paths[i]) =~= path.push(entry) + paths[i]);
    }
    assert(a =~= b);
}

proof fn lemma_after_concat(a: Seq<Assignment>, b: Seq<Assignment>, path: Assignment)
    ensures
        after(a + b, path) == after(a, path) + after(b, path),
{
    assert(after(a + b, path) =~= after(a, path) + after(b, path));
}

proof fn lemma_after_nothing(paths: Seq<Assignment>)
    ensures
        after(paths, Seq::empty()) == paths,
{
    assert forall|j: int| 0 <= j < paths.len() implies after(paths, Seq::empty())[j]
        == paths[j] by {
        assert(Seq::<(Seq<char>, usize)>::empty() + paths[j] =~= paths[j]);
    }
    assert(after(paths, Seq::empty()) =~= paths);
}

/// Putting the three instructions for one value of a variable on the
/// stack adds the assignments with that value in front of what is
/// pending.
proof fn lemma_mdd_expand_one<L>(
    dd: TableView<L>,
    ss: Seq<L>,
    stack: Seq<MddInstrView>,
    path: Assignment,
    lower: Option<Level>,
    child: NodeId,
    x: Seq<char>,
    v: usize,
)
    ensures
        mdd_pending(
            dd,
            ss,
            stack.push(MddInstrView::Pop(x)).push(MddInstrView::Node(lower, child)).push(
                MddInstrView::Push(x, v),
            ),
            path,
        ) == after(with_first(mdd_paths(dd, ss, expected(lower), child), (x, v)), path)
            + mdd_pending(dd, ss, stack, path),
        mdd_stack_cost(
            dd,
            stack.push(MddInstrView::Pop(x)).push(MddInstrView::Node(lower, child)).push(
                MddInstrView::Push(x, v),
            ),
        ) == mdd_stack_cost(dd, stack) + walk_cost(dd, expected(lower)) + 2,
{
    let s1 = stack.push(MddInstrView::Pop(x));
    let s2 = s1.push(MddInstrView::Node(lower, child));
    lemma_mdd_pending_push(dd, ss, s2, MddInstrView::Push(x, v), path);
    lemma_mdd_pending_push(dd, ss, s1, MddInstrView::Node(lower, child), path.push((x, v)));
    lemma_mdd_pending_push(dd, ss, stack, MddInstrView::Pop(x), path.push((x, v)));
    assert(pop_entry(path.push((x, v))) =~= path);
    lemma_after_first(mdd_paths(dd, ss, expected(lower), child), (x, v), path);
}

/// An instruction names a node of the table that does not stand above
/// the level expected, and no level above those that have a header.
pub open spec fn mdd_instr_ok<L>(dd: TableView<L>, named: nat, i: MddInstrView) -> bool {
    match i {
        MddInstrView::Node(level, id) => dd.valid(id) && dd.rank(id) <= expected(level) && expected(
            level,
        ) <= named,
        _ => true,
    }
}

/// An iterator over the satisfying assignments of a node of one node
/// table: the assignments to all variables at and below the node under
/// which the diagram ends in a terminal of the target set. Each
/// assignment comes as a list of pairs, a variable's label and the index
/// of its value, the highest variable first.
pub struct MddWalker<L> {
    table: Ghost<TableView<L>>,
    next_stack: Vec<MddStackValue>,
    path: Vec<(String, usize)>,
    node: NodeId,
    by_level: Vec<HeaderId>,
    ss: Vec<L>,
}

impl<L: Leaf> MddWalker<L> {
    /// The diagram.
    pub closed spec fn table(&self) -> TableView<L> {
        self.table@
    }

    /// The node whose assignments are enumerated.
    pub closed spec fn root(&self) -> NodeId {
        self.node
    }

    /// The target set.
    pub closed spec fn targets(&self) -> Seq<L> {
        self.ss@
    }

    /// The assignments that are still to come, in their order.
    pub closed spec fn remaining(&self) -> Seq<Assignment> {
        mdd_pending(self.table@, self.ss@, mdd_stack_view(self.next_stack@), entries_view(self.path@))
    }

    /// The iterator is in order: the diagram is well formed, every level
    /// that may have to be crossed has its header, and no node on the
    /// stack stands above the level expected there.
    pub closed spec fn wf(&self) -> bool {
        &&& self.table@.wf()
        &&& self.table@.valid(self.node)
        &&& headers_by_level(self.table@, self.by_level@)
        &&& forall|j: int|
            0 <= j < self.next_stack@.len() ==> mdd_instr_ok(
                self.table@,
                self.by_level@.len() as nat,
                #[trigger] self.next_stack@[j]@,
            )
    }

    /// Starts the enumeration at `node`. Fails with `MissingNode` for a
    /// node that the table does not hold, and with `MissingHeader` where
    /// a level below that of `node` has no header.
    pub fn new(dd: &NodeTable<L>, node: NodeId, ss: &[L]) -> (r: Result<Self, Error>)
        requires
            dd@.wf(),
        ensures
            match r {
                Ok(it) => {
                    &&& it.wf()
                    &&& it.table() == dd@
                    &&& it.root() == node
                    &&& it.targets() == ss@
                    &&& dd@.valid(node)
                    &&& levels_named(dd@, dd@.rank(node))
                    &&& it.remaining() == mdd_paths(dd@, ss@, dd@.rank(node), node)
                    &&& it.remaining().len() == mdd_count_spec(dd@, ss@, dd@.rank(node), node)
                },
                Err(e) => if !dd@.valid(node) {
                    e == Error::MissingNode
                } else {
                    e == Error::MissingHeader && !levels_named(dd@, dd@.rank(node))
                },
            },
    {
        if dd.get_node(node).is_none() {
            return Err(Error::MissingNode);
        }
        let level = dd.level(node);
        let by_level = match level_headers(dd, level) {
            Ok(v) => v,
            Err(e) => {
                return Err(e);
            },
        };
        let mut targets: Vec<L> = Vec::new();
        let mut i: usize = 0;
        while i < ss.len()
            invariant
                i <= ss.len(),
                targets@ =~= ss@.subrange(0, i as int),
            decreases ss.len() - i,
        {
            targets.push(ss[i]);
            i = i + 1;
        }
        assert(targets@ =~= ss@);
        let mut next_stack: Vec<MddStackValue> = Vec::new();
        next_stack.push(MddStackValue::Node(level, node));
        let it = MddWalker { table: Ghost(dd@), next_stack, path: Vec::new(), node, by_level, ss: targets };
        proof {
            let stack = mdd_stack_view(it.next_stack@);
            assert(stack =~= Seq::<MddInstrView>::empty().push(MddInstrView::Node(level, node)));
            lemma_mdd_pending_push(
                dd@,
                ss@,
                Seq::empty(),
                MddInstrView::Node(level, node),
                entries_view(it.path@),
            );
            let paths = mdd_paths(dd@, ss@, dd@.rank(node), node);
            assert(entries_view(it.path@) =~= Seq::<(Seq<char>, usize)>::empty());
            lemma_after_nothing(paths);
            assert(paths + Seq::<Assignment>::empty() =~= paths);
            assert(expected(level) == dd@.rank(node));
            lemma_mdd_paths_len(dd@, ss@, dd@.rank(node), node);
        }
        Ok(it)
    }

    /// Hands out the next assignment, or nothing when all are out.
    pub fn next(&mut self, dd: &NodeTable<L>) -> (r: Option<Vec<(String, usize)>>)
        requires
            old(self).wf(),
            dd@ == old(self).table(),
        ensures
            final(self).wf(),
            final(self).table() == old(self).table(),
            final(self).root() == old(self).root(),
            final(self).targets() == old(self).targets(),
            match r {
                Some(p) => old(self).remaining().len() > 0 && entries_view(p@) == old(
                    self,
                ).remaining()[0] && final(self).remaining() == old(self).remaining().drop_first(),
                None => old(self).remaining().len() == 0 && final(self).remaining().len() == 0,
            },
    {
        loop
            invariant
                self.wf(),
                self.table == old(self).table,
                dd@ == self.table@,
                self.node == old(self).node,
                self.ss == old(self).ss,
                self.by_level == old(self).by_level,
                self.remaining() == old(self).remaining(),
            decreases mdd_stack_cost(self.table@, mdd_stack_view(self.next_stack@)),
        {
            let ghost stack0 = mdd_stack_view(self.next_stack@);
            let ghost path0 = entries_view(self.path@);
            let ghost exec0 = self.next_stack@;
            let top = self.next_stack.pop();
            proof {
                if exec0.len() > 0 {
                    assert(mdd_stack_view(self.next_stack@) =~= stack0.drop_last());
                    assert(stack0.last() == exec0.last()@);
                    assert(mdd_instr_ok(
                        self.table@,
                        self.by_level@.len() as nat,
                        exec0[exec0.len() - 1]@,
                    ));
                }
            }
            match top {
                None => {
                    return None;
                },
                Some(MddStackValue::Push(x, i)) => {
                    self.path.push((x, i));
                    assert(entries_view(self.path@) =~= path0.push((x@, i)));
                },
                Some(MddStackValue::Pop(x)) => {
                    self.path.pop();
                    assert(entries_view(self.path@) =~= pop_entry(path0));
                },
                Some(MddStackValue::Node(level, nodeid)) => {
                    let ghost k = expected(level);
                    let ghost rest = stack0.drop_last();
                    let ghost tail = mdd_pending(self.table@, self.ss@, rest, path0);
                    let ghost paths = mdd_paths(self.table@, self.ss@, k, nodeid);
                                match level {
                        None => {
                            let hit = match dd.get_node(nodeid).unwrap() {
                                Node::Terminal(v) => contains(self.ss.as_slice(), v),
                                _ => false,
                            };
                            if hit {
                                let result = copy_entries(&self.path);
                                proof {
                                    assert(paths =~= seq![Seq::<(Seq<char>, usize)>::empty()]);
                                    assert(after(paths, path0)[0] =~= path0);
                                    assert((after(paths, path0) + tail).drop_first() =~= tail);
                                }
                                return Some(result);
                            } else {
                                proof {
                                    assert(paths =~= Seq::<Assignment>::empty());
                                    assert(after(paths, path0) + tail =~= tail);
                                }
                            }
                        },
                        Some(l) => {
                            let go = match dd.get_node(nodeid).unwrap() {
                                Node::Undet => false,
                                _ => true,
                            };
                            if go {
                                self.expand(dd, l, nodeid, Ghost(rest), Ghost(path0));
                            } else {
                                proof {
                                    assert(paths =~= Seq::<Assignment>::empty());
                                    assert(after(paths, path0) + tail =~= tail);
                                    lemma_walk_cost_positive(dd@, k);
                                }
                            }
                        },
                    }
                },
            }
        }
    }

    /// Puts on the stack, for each value of the variable at level `l`,
    /// the instructions that enumerate the assignments with that value.
    fn expand(
        &mut self,
        dd: &NodeTable<L>,
        l: Level,
        nodeid: NodeId,
        Ghost(rest): Ghost<Seq<MddInstrView>>,
        Ghost(path0): Ghost<Assignment>,
    )
        requires
            old(self).wf(),
            dd@ == old(self).table@,
            mdd_stack_view(old(self).next_stack@) == rest,
            old(self).table@.valid(nodeid),
            !(old(self).table@.nodes[nodeid as int] is Undet),
            old(self).table@.rank(nodeid) <= l + 1,
            l < old(self).by_level@.len(),
        ensures
            final(self).wf(),
            final(self).table == old(self).table,
            final(self).node == old(self).node,
            final(self).ss == old(self).ss,
            final(self).by_level == old(self).by_level,
            final(self).path == old(self).path,
            mdd_pending(
                final(self).table@,
                final(self).ss@,
                mdd_stack_view(final(self).next_stack@),
                path0,
            ) == after(mdd_paths(old(self).table@, old(self).ss@, (l + 1) as nat, nodeid), path0)
                + mdd_pending(old(self).table@, old(self).ss@, rest, path0),
            mdd_stack_cost(final(self).table@, mdd_stack_view(final(self).next_stack@))
                < mdd_stack_cost(old(self).table@, rest) + walk_cost(old(self).table@, (l + 1) as nat),
    {
        let h = self.by_level[l];
        let header = dd.get_header(h).unwrap();
        let nedge = header.edge_num();
        let lower: Option<Level> = if l > 0 {
            Some(l - 1)
        } else {
            None
        };
        let ghost k = (l + 1) as nat;
        let ghost tail = mdd_pending(dd@, self.ss@, rest, path0);
        let ghost x = label_at(dd@, l as nat);
        proof {
            lemma_header_at(dd@, l, h);
            assert(edge_num_at(dd@, l as nat) == nedge);
            assert(expected(lower) == l);
            assert(mdd_paths_from(dd@, self.ss@, k, nodeid, nedge as nat) =~= Seq::<
                Assignment,
            >::empty());
            assert(after(Seq::<Assignment>::empty(), path0) =~= Seq::<Assignment>::empty());
            assert(Seq::<Assignment>::empty() + tail =~= tail);
            assert(dd@.node_linked(nodeid));
            assert(dd@.node_descends(nodeid));
        }
        let here = match dd.level(nodeid) {
            Some(own) => own == l,
            None => false,
        };
        let mut m: usize = nedge;
        while m > 0
            invariant
                m <= nedge,
                self.wf(),
                self.table == old(self).table,
                dd@ == self.table@,
                self.node == old(self).node,
                self.ss == old(self).ss,
                self.by_level == old(self).by_level,
                self.path == old(self).path,
                l < self.by_level@.len(),
                h == self.by_level@[l as int],
                h < dd@.headers.len(),
                header@ == dd@.headers[h as int],
                dd@.headers[h as int].level == l,
                dd@.headers[h as int].edge_num == nedge,
                edge_num_at(dd@, l as nat) == nedge,
                x == label_at(dd@, l as nat),
                x == dd@.headers[h as int].label,
                expected(lower) == l,
                k == l + 1,
                dd@.valid(nodeid),
                dd@.rank(nodeid) <= l + 1,
                here == decides(dd@, k, nodeid),
                tail == mdd_pending(dd@, self.ss@, rest, path0),
                mdd_pending(dd@, self.ss@, mdd_stack_view(self.next_stack@), path0) == after(
                    mdd_paths_from(dd@, self.ss@, k, nodeid, m as nat),
                    path0,
                ) + tail,
                mdd_stack_cost(dd@, mdd_stack_view(self.next_stack@)) == mdd_stack_cost(dd@, rest)
                    + (nedge - m) * (walk_cost(dd@, l as nat) + 2),
            decreases m,
        {
            m = m - 1;
            let ghost stack_m = mdd_stack_view(self.next_stack@);
            let child = if here {
                match dd.get_node(nodeid).unwrap() {
                    Node::NonTerminal { header, children } => {
                        proof {
                            assert(dd@.node_linked(nodeid));
                            assert(dd@.node_descends(nodeid));
                            assert(dd@.is_nonterminal(nodeid));
                            assert(dd@.children(nodeid) == children@);
                            assert(dd@.header_id(nodeid) == h) by {
                                let own = dd@.header_id(nodeid);
                                if own != h {
                                    assert(dd@.headers[own as int].level != dd@.headers[h as int].level);
                                }
                            }
                            assert(dd@.valid(children@[m as int]));
                            assert(dd@.rank(children@[m as int]) < dd@.rank(nodeid));
                        }
                        children[m]
                    },
                    _ => nodeid,
                }
            } else {
                nodeid
            };
            let label = header.label();
            proof {
                assert(child == branch(dd@, k, nodeid, m as int));
                assert(dd@.valid(child) && dd@.rank(child) <= l);
                lemma_mdd_expand_one(dd@, self.ss@, stack_m, path0, lower, child, x, m);
                let these = with_first(
                    mdd_paths(dd@, self.ss@, l as nat, child),
                    (x, m),
                );
                let later = mdd_paths_from(dd@, self.ss@, k, nodeid, (m + 1) as nat);
                assert(mdd_paths_from(dd@, self.ss@, k, nodeid, m as nat) == these + later);
                lemma_after_concat(these, later, path0);
                assert(after(these, path0) + (after(later, path0) + tail) =~= (after(
                    these,
                    path0,
                ) + after(later, path0)) + tail);
                assert((nedge - (m + 1)) * (walk_cost(dd@, l as nat) + 2) + (walk_cost(
                    dd@,
                    l as nat,
                ) + 2) == (nedge - m) * (walk_cost(dd@, l as nat) + 2)) by (nonlinear_arith);
            }
            self.next_stack.push(MddStackValue::Pop(label.clone()));
            self.next_stack.push(MddStackValue::Node(lower, child));
            self.next_stack.push(MddStackValue::Push(label.clone(), m));
            proof {
                assert(mdd_stack_view(self.next_stack@) =~= stack_m.push(MddInstrView::Pop(x)).push(
                    MddInstrView::Node(lower, child),
                ).push(MddInstrView::Push(x, m)));
            }
        }
        proof {
            assert(walk_cost(dd@, k) == nedge * (walk_cost(dd@, l as nat) + 2) + 1);
        }
    }
}

/// A copy of the entries of `v`.
fn copy_entries(v: &Vec<(String, usize)>) -> (r: Vec<(String, usize)>)
    ensures
        entries_view(r@) == entries_view(v@),
{
    let mut r: Vec<(String, usize)> = Vec::new();
    let mut i: usize = 0;
    while i < v.len()
        invariant
            i <= v.len(),
            r@.len() == i,
            forall|j: int| 0 <= j < i ==> (#[trigger] r@[j]).0@ == v@[j].0@ && r@[j].1 == v@[j].1,
        decreases v.len() - i,
    {
        r.push((v[i].0.clone(), v[i].1));
        i = i + 1;
    }
    assert(entries_view(r@) =~= entries_view(v@));
    r
}

proof fn lemma_walk_cost_positive<L>(dd: TableView<L>, k: nat)
    ensures
        walk_cost(dd, k) >= 1,
{
    if k > 0 {
        assert(edge_num_at(dd, (k - 1) as nat) * (walk_cost(dd, (k - 1) as nat) + 2) >= 0)
            by (nonlinear_arith);
    }
}

/// For the empty target set the enumerations hand out nothing.
pub proof fn lemma_no_mdd_paths_to_nothing<L>(dd: TableView<L>, k: nat, id: NodeId)
    requires
        dd.wf(),
        dd.valid(id),
        dd.rank(id) <= k,
    ensures
        mdd_paths(dd, Seq::empty(), k, id).len() == 0,
        zmdd_paths(dd, Seq::empty(), id).len() == 0,
{
    lemma_mdd_paths_len(dd, Seq::empty(), k, id);
    lemma_zmdd_paths_len(dd, Seq::empty(), id);
    lemma_mdd_count_of_nothing(dd, k, id);
    lemma_zmdd_count_of_nothing(dd, id);
}

/// The enumeration hands out as many assignments as the count counts.
pub proof fn lemma_mdd_paths_len<L>(dd: TableView<L>, ss: Seq<L>, k: nat, id: NodeId)
    requires
        dd.wf(),
        dd.valid(id),
        dd.rank(id) <= k,
    ensures
        mdd_paths(dd, ss, k, id).len() == mdd_count_spec(dd, ss, k, id),
    decreases k, 1nat, 0nat,
{
    if dd.nodes[id as int] is Undet {
    } else if k == 0 {
    } else {
        let n = edge_num_at(dd, (k - 1) as nat);
        lemma_mdd_paths_from_len(dd, ss, k, id, 0);
        if decides(dd, k, id) {
            assert(dd.node_linked(id));
            lemma_header_at(dd, (k - 1) as Level, dd.header_id(id));
            assert(n == dd.children(id).len());
            lemma_branch_sum(dd, ss, k, id, n);
        } else {
            lemma_skip_sum(dd, ss, k, id, n);
        }
    }
}

/// The number of assignments with a value from the `m`-th on, as a sum of
/// counts.
pub open spec fn branch_sum<L>(dd: TableView<L>, ss: Seq<L>, k: nat, id: NodeId, m: nat) -> nat
    decreases edge_num_at(dd, (k - 1) as nat) - m,
{
    if k == 0 || m >= edge_num_at(dd, (k - 1) as nat) {
        0
    } else {
        mdd_count_spec(dd, ss, (k - 1) as nat, branch(dd, k, id, m as int)) + branch_sum(
            dd,
            ss,
            k,
            id,
            m + 1,
        )
    }
}

proof fn lemma_mdd_paths_from_len<L>(dd: TableView<L>, ss: Seq<L>, k: nat, id: NodeId, m: nat)
    requires
        dd.wf(),
        dd.valid(id),
        dd.rank(id) <= k,
        k > 0,
    ensures
        mdd_paths_from(dd, ss, k, id, m).len() == branch_sum(dd, ss, k, id, m),
    decreases k, 0nat, edge_num_at(dd, (k - 1) as nat) - m,
{
    if m < edge_num_at(dd, (k - 1) as nat) {
        let c = branch(dd, k, id, m as int);
        assert(dd.node_linked(id));
        assert(dd.node_descends(id));
        assert(dd.valid(c) && dd.rank(c) <= k - 1) by {
            if decides(dd, k, id) && m < dd.children(id).len() {
                assert(dd.valid(dd.children(id)[m as int]));
                assert(dd.rank(dd.children(id)[m as int]) < dd.rank(id));
            }
        }
        lemma_mdd_paths_len(dd, ss, (k - 1) as nat, c);
        lemma_mdd_paths_from_len(dd, ss, k, id, m + 1);
    }
}

/// Where the node decides on the variable, the sum over the values from
/// the `m`-th on and the sum over the children before make the sum over
/// all children.
proof fn lemma_branch_sum<L>(dd: TableView<L>, ss: Seq<L>, k: nat, id: NodeId, n: nat)
    requires
        k > 0,
        decides(dd, k, id),
        n == edge_num_at(dd, (k - 1) as nat),
        n == dd.children(id).len(),
    ensures
        branch_sum(dd, ss, k, id, 0) == mdd_count_sum(dd, ss, (k - 1) as nat, dd.children(id), n),
{
    lemma_branch_sum_from(dd, ss, k, id, n, 0);
}

proof fn lemma_branch_sum_from<L>(dd: TableView<L>, ss: Seq<L>, k: nat, id: NodeId, n: nat, m: nat)
    requires
        k > 0,
        decides(dd, k, id),
        n == edge_num_at(dd, (k - 1) as nat),
        n == dd.children(id).len(),
        m <= n,
    ensures
        mdd_count_sum(dd, ss, (k - 1) as nat, dd.children(id), m) + branch_sum(dd, ss, k, id, m)
            == mdd_count_sum(dd, ss, (k - 1) as nat, dd.children(id), n),
    decreases n - m,
{
    if m < n {
        lemma_branch_sum_from(dd, ss, k, id, n, m + 1);
    }
}

/// Where the node does not decide on the variable, the sum over the
/// values is the number of values times the count of the node.
proof fn lemma_skip_sum<L>(dd: TableView<L>, ss: Seq<L>, k: nat, id: NodeId, n: nat)
    requires
        k > 0,
        !decides(dd, k, id),
        n == edge_num_at(dd, (k - 1) as nat),
    ensures
        branch_sum(dd, ss, k, id, 0) == n * mdd_count_spec(dd, ss, (k - 1) as nat, id),
{
    lemma_skip_sum_from(dd, ss, k, id, n, 0);
}

proof fn lemma_skip_sum_from<L>(dd: TableView<L>, ss: Seq<L>, k: nat, id: NodeId, n: nat, m: nat)
    requires
        k > 0,
        !decides(dd, k, id),
        n == edge_num_at(dd, (k - 1) as nat),
        m <= n,
    ensures
        branch_sum(dd, ss, k, id, m) == (n - m) * mdd_count_spec(dd, ss, (k - 1) as nat, id),
    decreases n - m,
{
    let c = mdd_count_spec(dd, ss, (k - 1) as nat, id);
    if m < n {
        lemma_skip_sum_from(dd, ss, k, id, n, m + 1);
        assert(c + (n - (m + 1)) * c == (n - m) * c) by (nonlinear_arith);
    } else {
        assert((n - m) * c == 0) by (nonlinear_arith)
            requires
                n == m,
        ;
    }
}

/// The paths from `id` to a terminal of `ss`, each as the list of the
/// variables that it passes with the index of the edge taken, the highest
/// variable first; by the index of the edge taken at `id`, from the
/// first edge on.
pub open spec fn zmdd_paths<L>(dd: TableView<L>, ss: Seq<L>, id: NodeId) -> Seq<Assignment>
    decreases dd.rank(id), 1nat, 0nat,
{
    if !dd.valid(id) {
        Seq::empty()
    } else {
        match dd.nodes[id as int] {
            NodeView::Terminal(v) => if ss.contains(v) {
                seq![Seq::empty()]
            } else {
                Seq::empty()
            },
            NodeView::Undet => Seq::empty(),
            NodeView::NonTerminal { header, children } => zmdd_paths_from(dd, ss, id, 0),
        }
    }
}

/// The paths of `zmdd_paths` that leave `id` by an edge from the `m`-th
/// on.
pub open spec fn zmdd_paths_from<L>(dd: TableView<L>, ss: Seq<L>, id: NodeId, m: nat) -> Seq<
    Assignment,
>
    decreases dd.rank(id), 0nat, dd.children(id).len() - m,
{
    if m >= dd.children(id).len() {
        Seq::empty()
    } else {
        let c = dd.children(id)[m as int];
        with_first(
            if dd.rank(c) < dd.rank(id) {
                zmdd_paths(dd, ss, c)
            } else {
                Seq::empty()
            },
            (dd.header(id).label, m as usize),
        ) + zmdd_paths_from(dd, ss, id, m + 1)
    }
}

/// The paths that a path iterator still has to hand out, in their order.
pub open spec fn zmdd_pending<L>(
    dd: TableView<L>,
    ss: Seq<L>,
    stack: Seq<MddInstrView>,
    path: Assignment,
) -> Seq<Assignment>
    decreases stack.len(),
{
    if stack.len() == 0 {
        Seq::empty()
    } else {
        let rest = stack.drop_last();
        match stack.last() {
            MddInstrView::Push(x, i) => zmdd_pending(dd, ss, rest, path.push((x, i))),
            MddInstrView::Pop(_) => zmdd_pending(dd, ss, rest, pop_entry(path)),
            MddInstrView::Node(_, id) => after(zmdd_paths(dd, ss, id), path) + zmdd_pending(
                dd,
                ss,
                rest,
                path,
            ),
        }
    }
}

pub open spec fn zmdd_instr_cost<L>(dd: TableView<L>, i: MddInstrView) -> nat {
    match i {
        MddInstrView::Node(_, id) => walk_cost(dd, dd.rank(id)),
        _ => 1,
    }
}

pub open spec fn zmdd_stack_cost<L>(dd: TableView<L>, stack: Seq<MddInstrView>) -> nat
    decreases stack.len(),
{
    if stack.len() == 0 {
        0
    } else {
        zmdd_stack_cost(dd, stack.drop_last()) + zmdd_instr_cost(dd, stack.last())
    }
}

proof fn lemma_zmdd_pending_push<L>(
    dd: TableView<L>,
    ss: Seq<L>,
    rest: Seq<MddInstrView>,
    i: MddInstrView,
    path: Assignment,
)
    ensures
        zmdd_pending(dd, ss, rest.push(i), path) == match i {
            MddInstrView::Push(x, v) => zmdd_pending(dd, ss, rest, path.push((x, v))),
            MddInstrView::Pop(_) => zmdd_pending(dd, ss, rest, pop_entry(path)),
            MddInstrView::Node(_, id) => after(zmdd_paths(dd, ss, id), path) + zmdd_pending(
                dd,
                ss,
                rest,
                path,
            ),
        },
        zmdd_stack_cost(dd, rest.push(i)) == zmdd_stack_cost(dd, rest) + zmdd_instr_cost(dd, i),
{
    assert(rest.push(i).drop_last() =~= rest);
    assert(rest.push(i).last() == i);
}

proof fn lemma_zmdd_expand_one<L>(
    dd: TableView<L>,
    ss: Seq<L>,
    stack: Seq<MddInstrView>,
    path: Assignment,
    child: NodeId,
    x: Seq<char>,
    v: usize,
)
    ensures
        zmdd_pending(
            dd,
            ss,
            stack.push(MddInstrView::Pop(x)).push(MddInstrView::Node(None, child)).push(
                MddInstrView::Push(x, v),
            ),
            path,
        ) == after(with_first(zmdd_paths(dd, ss, child), (x, v)), path) + zmdd_pending(
            dd,
            ss,
            stack,
            path,
        ),
        zmdd_stack_cost(
            dd,
            stack.push(MddInstrView::Pop(x)).push(MddInstrView::Node(None, child)).push(
                MddInstrView::Push(x, v),
            ),
        ) == zmdd_stack_cost(dd, stack) + walk_cost(dd, dd.rank(child)) + 2,
{
    let s1 = stack.push(MddInstrView::Pop(x));
    let s2 = s1.push(MddInstrView::Node(None, child));
    lemma_zmdd_pending_push(dd, ss, s2, MddInstrView::Push(x, v), path);
    lemma_zmdd_pending_push(dd, ss, s1, MddInstrView::Node(None, child), path.push((x, v)));
    lemma_zmdd_pending_push(dd, ss, stack, MddInstrView::Pop(x), path.push((x, v)));
    assert(pop_entry(path.push((x, v))) =~= path);
    lemma_after_first(zmdd_paths(dd, ss, child), (x, v), path);
}

proof fn lemma_walk_cost_grows<L>(dd: TableView<L>, a: nat, b: nat)
    requires
        dd.wf(),
        a <= b,
    ensures
        walk_cost(dd, a) <= walk_cost(dd, b),
    decreases b,
{
    if a < b {
        lemma_walk_cost_grows(dd, a, (b - 1) as nat);
        let e = edge_num_at(dd, (b - 1) as nat);
        assert(e >= 1) by {
            if dd.has_level((b - 1) as Level) {
                let h = dd.header_at((b - 1) as Level);
                assert(dd.headers[h as int].edge_num >= 2);
            }
        }
        let w = walk_cost(dd, (b - 1) as nat);
        assert(e * (w + 2) + 1 >= w) by (nonlinear_arith)
            requires
                e >= 1,
                w >= 0,
        ;
    }
}

/// An instruction names a node of the table.
pub open spec fn zmdd_instr_ok<L>(dd: TableView<L>, i: MddInstrView) -> bool {
    match i {
        MddInstrView::Node(_, id) => dd.valid(id),
        _ => true,
    }
}

/// The number of paths that leave `id` by an edge from the `m`-th on, as
/// a sum of path counts.
pub open spec fn zbranch_sum<L>(dd: TableView<L>, ss: Seq<L>, id: NodeId, m: nat) -> nat
    decreases dd.children(id).len() - m,
{
    if m >= dd.children(id).len() {
        0
    } else {
        let c = dd.children(id)[m as int];
        (if dd.rank(c) < dd.rank(id) {
            zmdd_count_spec(dd, ss, c)
        } else {
            0
        }) + zbranch_sum(dd, ss, id, m + 1)
    }
}

/// The enumeration hands out as many paths as the path count counts.
pub proof fn lemma_zmdd_paths_len<L>(dd: TableView<L>, ss: Seq<L>, id: NodeId)
    ensures
        zmdd_paths(dd, ss, id).len() == zmdd_count_spec(dd, ss, id),
    decreases dd.rank(id), 1nat, 0nat,
{
    if dd.valid(id) && dd.nodes[id as int] is NonTerminal {
        lemma_zmdd_paths_from_len(dd, ss, id, 0);
        lemma_zbranch_sum_from(dd, ss, id, 0);
    }
}

proof fn lemma_zmdd_paths_from_len<L>(dd: TableView<L>, ss: Seq<L>, id: NodeId, m: nat)
    ensures
        zmdd_paths_from(dd, ss, id, m).len() == zbranch_sum(dd, ss, id, m),
    decreases dd.rank(id), 0nat, dd.children(id).len() - m,
{
    if m < dd.children(id).len() {
        let c = dd.children(id)[m as int];
        if dd.rank(c) < dd.rank(id) {
            lemma_zmdd_paths_len(dd, ss, c);
        }
        lemma_zmdd_paths_from_len(dd, ss, id, m + 1);
    }
}

proof fn lemma_zbranch_sum_from<L>(dd: TableView<L>, ss: Seq<L>, id: NodeId, m: nat)
    requires
        m <= dd.children(id).len(),
    ensures
        zmdd_count_sum(dd, ss, id, m) + zbranch_sum(dd, ss, id, m) == zmdd_count_sum(
            dd,
            ss,
            id,
            dd.children(id).len(),
        ),
    decreases dd.children(id).len() - m,
{
    if m < dd.children(id).len() {
        lemma_zbranch_sum_from(dd, ss, id, m + 1);
    }
}

/// An iterator over the paths of a node of one node table: the paths
/// from the node to a terminal of the target set. Each path comes as a
/// list of pairs, the label of a variable that it passes and the index of
/// the edge that it takes there, the highest variable first.
pub struct ZMddWalker<L> {
    table: Ghost<TableView<L>>,
    next_stack: Vec<MddStackValue>,
    path: Vec<(String, usize)>,
    node: NodeId,
    ss: Vec<L>,
}

impl<L: Leaf> ZMddWalker<L> {
    /// The diagram.
    pub closed spec fn table(&self) -> TableView<L> {
        self.table@
    }

    /// The node whose paths are enumerated.
    pub closed spec fn root(&self) -> NodeId {
        self.node
    }

    /// The target set.
    pub closed spec fn targets(&self) -> Seq<L> {
        self.ss@
    }

    /// The paths that are still to come, in their order.
    pub closed spec fn remaining(&self) -> Seq<Assignment> {
        zmdd_pending(self.table@, self.ss@, mdd_stack_view(self.next_stack@), entries_view(self.path@))
    }

    /// The iterator is in order: the diagram is well formed and the
    /// stack names nodes of it.
    pub closed spec fn wf(&self) -> bool {
        &&& self.table@.wf()
        &&& self.table@.valid(self.node)
        &&& forall|j: int|
            0 <= j < self.next_stack@.len() ==> zmdd_instr_ok(
                self.table@,
                #[trigger] self.next_stack@[j]@,
            )
    }

    /// Starts the enumeration at `node`. Fails with `MissingNode` for a
    /// node that the table does not hold.
    pub fn new(dd: &NodeTable<L>, node: NodeId, ss: &[L]) -> (r: Result<Self, Error>)
        requires
            dd@.wf(),
        ensures
            match r {
                Ok(it) => {
                    &&& it.wf()
                    &&& it.table() == dd@
                    &&& it.root() == node
                    &&& it.targets() == ss@
                    &&& dd@.valid(node)
                    &&& it.remaining() == zmdd_paths(dd@, ss@, node)
                    &&& it.remaining().len() == zmdd_count_spec(dd@, ss@, node)
                },
                Err(e) => !dd@.valid(node) && e == Error::MissingNode,
            },
    {
        if dd.get_node(node).is_none() {
            return Err(Error::MissingNode);
        }
        let mut targets: Vec<L> = Vec::new();
        let mut i: usize = 0;
        while i < ss.len()
            invariant
                i <= ss.len(),
                targets@ =~= ss@.subrange(0, i as int),
            decreases ss.len() - i,
        {
            targets.push(ss[i]);
            i = i + 1;
        }
        assert(targets@ =~= ss@);
        let mut next_stack: Vec<MddStackValue> = Vec::new();
        next_stack.push(MddStackValue::Node(None, node));
        let it = ZMddWalker { table: Ghost(dd@), next_stack, path: Vec::new(), node, ss: targets };
        proof {
            let stack = mdd_stack_view(it.next_stack@);
            assert(stack =~= Seq::<MddInstrView>::empty().push(MddInstrView::Node(None, node)));
            lemma_zmdd_pending_push(
                dd@,
                ss@,
                Seq::empty(),
                MddInstrView::Node(None, node),
                entries_view(it.path@),
            );
            let paths = zmdd_paths(dd@, ss@, node);
            assert(entries_view(it.path@) =~= Seq::<(Seq<char>, usize)>::empty());
            lemma_after_nothing(paths);
            assert(paths + Seq::<Assignment>::empty() =~= paths);
            lemma_zmdd_paths_len(dd@, ss@, node);
        }
        Ok(it)
    }

    /// Hands out the next path, or nothing when all are out.
    pub fn next(&mut self, dd: &NodeTable<L>) -> (r: Option<Vec<(String, usize)>>)
        requires
            old(self).wf(),
            dd@ == old(self).table(),
        ensures
            final(self).wf(),
            final(self).table() == old(self).table(),
            final(self).root() == old(self).root(),
            final(self).targets() == old(self).targets(),
            match r {
                Some(p) => old(self).remaining().len() > 0 && entries_view(p@) == old(
                    self,
                ).remaining()[0] && final(self).remaining() == old(self).remaining().drop_first(),
                None => old(self).remaining().len() == 0 && final(self).remaining().len() == 0,
            },
    {
        loop
            invariant
                self.wf(),
                self.table == old(self).table,
                dd@ == self.table@,
                self.node == old(self).node,
                self.ss == old(self).ss,
                self.remaining() == old(self).remaining(),
            decreases zmdd_stack_cost(self.table@, mdd_stack_view(self.next_stack@)),
        {
            let ghost stack0 = mdd_stack_view(self.next_stack@);
            let ghost path0 = entries_view(self.path@);
            let ghost exec0 = self.next_stack@;
            let top = self.next_stack.pop();
            proof {
                if exec0.len() > 0 {
                    assert(mdd_stack_view(self.next_stack@) =~= stack0.drop_last());
                    assert(stack0.last() == exec0.last()@);
                    assert(zmdd_instr_ok(self.table@, exec0[exec0.len() - 1]@));
                }
            }
            match top {
                None => {
                    return None;
                },
                Some(MddStackValue::Push(x, i)) => {
                    self.path.push((x, i));
                    assert(entries_view(self.path@) =~= path0.push((x@, i)));
                },
                Some(MddStackValue::Pop(x)) => {
                    self.path.pop();
                    assert(entries_view(self.path@) =~= pop_entry(path0));
                },
                Some(MddStackValue::Node(level, nodeid)) => {
                    let ghost rest = stack0.drop_last();
                    let ghost tail = zmdd_pending(self.table@, self.ss@, rest, path0);
                    let ghost paths = zmdd_paths(self.table@, self.ss@, nodeid);
                                let mut inner = false;
                    let mut hit = false;
                    match dd.get_node(nodeid).unwrap() {
                        Node::Terminal(v) => {
                            hit = contains(self.ss.as_slice(), v);
                        },
                        Node::Undet => {},
                        Node::NonTerminal { header, children } => {
                            inner = true;
                        },
                    }
                    if inner {
                        self.expand(dd, nodeid, Ghost(rest), Ghost(path0));
                    } else if hit {
                        let result = copy_entries(&self.path);
                        proof {
                            assert(paths =~= seq![Seq::<(Seq<char>, usize)>::empty()]);
                            assert(after(paths, path0)[0] =~= path0);
                            assert((after(paths, path0) + tail).drop_first() =~= tail);
                        }
                        return Some(result);
                    } else {
                        proof {
                            assert(paths =~= Seq::<Assignment>::empty());
                            assert(after(paths, path0) + tail =~= tail);
                            lemma_walk_cost_positive(dd@, dd@.rank(nodeid));
                        }
                    }
                },
            }
        }
    }

    /// Puts on the stack, for each edge of the node, the instructions that
    /// enumerate the paths through that edge.
    fn expand(
        &mut self,
        dd: &NodeTable<L>,
        nodeid: NodeId,
        Ghost(rest): Ghost<Seq<MddInstrView>>,
        Ghost(path0): Ghost<Assignment>,
    )
        requires
            old(self).wf(),
            dd@ == old(self).table@,
            mdd_stack_view(old(self).next_stack@) == rest,
            old(self).table@.is_nonterminal(nodeid),
        ensures
            final(self).wf(),
            final(self).table == old(self).table,
            final(self).node == old(self).node,
            final(self).ss == old(self).ss,
            final(self).path == old(self).path,
            zmdd_pending(
                final(self).table@,
                final(self).ss@,
                mdd_stack_view(final(self).next_stack@),
                path0,
            ) == after(zmdd_paths(old(self).table@, old(self).ss@, nodeid), path0) + zmdd_pending(
                old(self).table@,
                old(self).ss@,
                rest,
                path0,
            ),
            zmdd_stack_cost(final(self).table@, mdd_stack_view(final(self).next_stack@))
                < zmdd_stack_cost(old(self).table@, rest) + walk_cost(
                old(self).table@,
                old(self).table@.rank(nodeid),
            ),
    {
        let ghost tail = zmdd_pending(dd@, self.ss@, rest, path0);
        let ghost r = dd@.rank(nodeid);
        proof {
            assert(dd@.node_linked(nodeid));
            assert(dd@.node_descends(nodeid));
        }
        match dd.get_node(nodeid).unwrap() {
            Node::NonTerminal { header, children } => {
                let label = dd.get_header(*header).unwrap().label();
                let ghost x = dd@.header(nodeid).label;
                let nedge = children.len();
                proof {
                    assert(dd@.children(nodeid) == children@);
                    lemma_header_at(dd@, (r - 1) as Level, *header);
                    assert(edge_num_at(dd@, (r - 1) as nat) == nedge);
                    assert(zmdd_paths_from(dd@, self.ss@, nodeid, nedge as nat) =~= Seq::<
                        Assignment,
                    >::empty());
                    assert(after(Seq::<Assignment>::empty(), path0) =~= Seq::<Assignment>::empty());
                    assert(Seq::<Assignment>::empty() + tail =~= tail);
                }
                let mut m: usize = nedge;
                while m > 0
                    invariant
                        m <= nedge,
                        self.wf(),
                        self.table == old(self).table,
                dd@ == self.table@,
                                self.node == old(self).node,
                        self.ss == old(self).ss,
                        self.path == old(self).path,
                        dd@.is_nonterminal(nodeid),
                        dd@.children(nodeid) == children@,
                        nedge == children@.len(),
                        r == dd@.rank(nodeid),
                        r >= 1,
                        edge_num_at(dd@, (r - 1) as nat) == nedge,
                        x == dd@.header(nodeid).label,
                        label@ == x,
                        tail == zmdd_pending(dd@, self.ss@, rest, path0),
                        zmdd_pending(dd@, self.ss@, mdd_stack_view(self.next_stack@), path0)
                            == after(zmdd_paths_from(dd@, self.ss@, nodeid, m as nat), path0) + tail,
                        zmdd_stack_cost(dd@, mdd_stack_view(self.next_stack@)) <= zmdd_stack_cost(
                            dd@,
                            rest,
                        ) + (nedge - m) * (walk_cost(dd@, (r - 1) as nat) + 2),
                    decreases m,
                {
                    m = m - 1;
                    let ghost stack_m = mdd_stack_view(self.next_stack@);
                    let child = children[m];
                    proof {
                        assert(dd@.node_linked(nodeid));
                        assert(dd@.node_descends(nodeid));
                        assert(dd@.valid(children@[m as int]));
                        assert(dd@.rank(child) < r);
                        lemma_zmdd_expand_one(dd@, self.ss@, stack_m, path0, child, x, m);
                        lemma_walk_cost_grows(dd@, dd@.rank(child), (r - 1) as nat);
                        let these = with_first(zmdd_paths(dd@, self.ss@, child), (x, m));
                        let later = zmdd_paths_from(dd@, self.ss@, nodeid, (m + 1) as nat);
                        assert(zmdd_paths_from(dd@, self.ss@, nodeid, m as nat) == these + later);
                        lemma_after_concat(these, later, path0);
                        assert(after(these, path0) + (after(later, path0) + tail) =~= (after(
                            these,
                            path0,
                        ) + after(later, path0)) + tail);
                        assert((nedge - (m + 1)) * (walk_cost(dd@, (r - 1) as nat) + 2) + (
                        walk_cost(dd@, (r - 1) as nat) + 2) == (nedge - m) * (walk_cost(
                            dd@,
                            (r - 1) as nat,
                        ) + 2)) by (nonlinear_arith);
                    }
                    self.next_stack.push(MddStackValue::Pop(label.clone()));
                    self.next_stack.push(MddStackValue::Node(None, child));
                    self.next_stack.push(MddStackValue::Push(label.clone(), m));
                    proof {
                        assert(mdd_stack_view(self.next_stack@) =~= stack_m.push(
                            MddInstrView::Pop(x),
                        ).push(MddInstrView::Node(None, child)).push(MddInstrView::Push(x, m)));
                    }
                }
                proof {
                    assert(walk_cost(dd@, r) == nedge * (walk_cost(dd@, (r - 1) as nat) + 2) + 1);
                }
            },
            _ => {},
        }
    }
}

/// The walker of the table that the node is in.
pub enum MddWalk<V> {
    Value(MddWalker<V>),
    Bool(MddWalker<bool>),
}

/// An iterator over the satisfying assignments of a node of a
/// multi-valued diagram, for a target set of values; in a Boolean diagram
/// false counts as the value 0 and true as the value 1.
pub struct MddPath<V> {
    pub walk: MddWalk<V>,
}

impl<V: MDDValue> MddPath<V> {
    /// The iterator walks a table of `mdd`.
    pub open spec fn over(&self, mdd: &MtMdd2Manager<V>) -> bool {
        match self.walk {
            MddWalk::Value(w) => w.table() == mdd.mtmdd@,
            MddWalk::Bool(w) => w.table() == mdd.mdd@,
        }
    }

    /// The iterator is in order.
    pub open spec fn wf(&self) -> bool {
        match self.walk {
            MddWalk::Value(w) => w.wf(),
            MddWalk::Bool(w) => w.wf(),
        }
    }

    /// The assignments that are still to come, in their order.
    pub open spec fn remaining(&self) -> Seq<Assignment> {
        match self.walk {
            MddWalk::Value(w) => w.remaining(),
            MddWalk::Bool(w) => w.remaining(),
        }
    }

    /// The number of assignments that the enumeration starts with.
    pub open spec fn total(&self) -> nat {
        match self.walk {
            MddWalk::Value(w) => mdd_count_spec(
                w.table(),
                w.targets(),
                w.table().rank(w.root()),
                w.root(),
            ),
            MddWalk::Bool(w) => mdd_count_spec(
                w.table(),
                w.targets(),
                w.table().rank(w.root()),
                w.root(),
            ),
        }
    }

    /// The number of assignments can be computed in a machine word.
    pub open spec fn countable(&self) -> bool {
        match self.walk {
            MddWalk::Value(w) => mdd_count_fits::<V, u64>(
                w.table(),
                w.targets(),
                w.table().rank(w.root()),
                w.root(),
            ),
            MddWalk::Bool(w) => mdd_count_fits::<bool, u64>(
                w.table(),
                w.targets(),
                w.table().rank(w.root()),
                w.root(),
            ),
        }
    }

    /// Every level below the node has a header.
    pub open spec fn named(&self) -> bool {
        match self.walk {
            MddWalk::Value(w) => levels_named(w.table(), w.table().rank(w.root())),
            MddWalk::Bool(w) => levels_named(w.table(), w.table().rank(w.root())),
        }
    }

    /// Starts the enumeration at `node`. Fails with `MissingNode` for a
    /// node that its table does not hold, and with `MissingHeader` where
    /// a level below that of `node` has no header.
    pub fn new(mdd: &MtMdd2Manager<V>, node: &crate::mtmdd2::Node, ss: &[V]) -> (r: Result<
        Self,
        Error,
    >)
        requires
            mdd.wf(),
        ensures
            match r {
                Ok(it) => {
                    &&& it.wf()
                    &&& it.over(mdd)
                    &&& it.named()
                    &&& crate::mdd_count::node_valid(mdd, *node)
                    &&& crate::mdd_count::node_named(mdd, *node)
                    &&& it.total() == crate::mdd_count::count_of(mdd, *node, ss@)
                    &&& it.remaining().len() == it.total()
                    &&& it.remaining() == match *node {
                        crate::mtmdd2::Node::Value(id) => mdd_paths(
                            mdd.mtmdd@,
                            ss@,
                            mdd.mtmdd@.rank(id),
                            id,
                        ),
                        crate::mtmdd2::Node::Bool(id) => mdd_paths(
                            mdd.mdd@,
                            bool_targets(ss@),
                            mdd.mdd@.rank(id),
                            id,
                        ),
                    }
                },
                Err(e) => if !crate::mdd_count::node_valid(mdd, *node) {
                    e == Error::MissingNode
                } else {
                    e == Error::MissingHeader && !crate::mdd_count::node_named(mdd, *node)
                },
            },
    {
        match node {
            crate::mtmdd2::Node::Value(id) => {
                match MddWalker::new(&mdd.mtmdd, *id, ss) {
                    Ok(w) => Ok(MddPath { walk: MddWalk::Value(w) }),
                    Err(e) => Err(e),
                }
            },
            crate::mtmdd2::Node::Bool(id) => {
                let sb = to_bool_targets(ss);
                match MddWalker::new(&mdd.mdd, *id, sb.as_slice()) {
                    Ok(w) => Ok(MddPath { walk: MddWalk::Bool(w) }),
                    Err(e) => Err(e),
                }
            },
        }
    }

    /// The number of assignments that the enumeration starts with.
    pub fn len(&self, mdd: &MtMdd2Manager<V>) -> (r: u64)
        requires
            self.wf(),
            self.over(mdd),
            self.named(),
            self.countable(),
        ensures
            r == self.total(),
    {
        match &self.walk {
            MddWalk::Value(w) => w.len(&mdd.mtmdd),
            MddWalk::Bool(w) => w.len(&mdd.mdd),
        }
    }

    /// Hands out the next assignment, or nothing when all are out.
    pub fn next(&mut self, mdd: &MtMdd2Manager<V>) -> (r: Option<Vec<(String, usize)>>)
        requires
            old(self).wf(),
            old(self).over(mdd),
        ensures
            final(self).wf(),
            final(self).over(mdd),
            final(self).total() == old(self).total(),
            final(self).countable() == old(self).countable(),
            final(self).named() == old(self).named(),
            match r {
                Some(p) => old(self).remaining().len() > 0 && entries_view(p@) == old(
                    self,
                ).remaining()[0] && final(self).remaining() == old(self).remaining().drop_first(),
                None => old(self).remaining().len() == 0 && final(self).remaining().len() == 0,
            },
    {
        match &mut self.walk {
            MddWalk::Value(w) => w.next(&mdd.mtmdd),
            MddWalk::Bool(w) => w.next(&mdd.mdd),
        }
    }
}

impl<L: Leaf> MddWalker<L> {
    /// The number of assignments that the enumeration starts with.
    pub fn len(&self, dd: &NodeTable<L>) -> (r: u64)
        requires
            self.wf(),
            dd@ == self.table(),
            levels_named(self.table(), self.table().rank(self.root())),
            mdd_count_fits::<L, u64>(
                self.table(),
                self.targets(),
                self.table().rank(self.root()),
                self.root(),
            ),
        ensures
            r == mdd_count_spec(
                self.table(),
                self.targets(),
                self.table().rank(self.root()),
                self.root(),
            ),
    {
        match count_in::<L, u64>(dd, self.node, self.ss.as_slice()) {
            Ok(v) => v,
            Err(_) => 0,
        }
    }
}

/// The path walker of the table that the node is in.
pub enum ZMddWalk<V> {
    Value(ZMddWalker<V>),
    Bool(ZMddWalker<bool>),
}

/// An iterator over the paths of a node of a multi-valued diagram that
/// end in a terminal whose value is in the target set; in a Boolean
/// diagram false counts as the value 0 and true as the value 1.
pub struct ZMddPath<V> {
    pub walk: ZMddWalk<V>,
}

impl<V: MDDValue> ZMddPath<V> {
    /// The iterator walks a table of `mdd`.
    pub open spec fn over(&self, mdd: &MtMdd2Manager<V>) -> bool {
        match self.walk {
            ZMddWalk::Value(w) => w.table() == mdd.mtmdd@,
            ZMddWalk::Bool(w) => w.table() == mdd.mdd@,
        }
    }

    /// The iterator is in order.
    pub open spec fn wf(&self) -> bool {
        match self.walk {
            ZMddWalk::Value(w) => w.wf(),
            ZMddWalk::Bool(w) => w.wf(),
        }
    }

    /// The paths that are still to come, in their order.
    pub open spec fn remaining(&self) -> Seq<Assignment> {
        match self.walk {
            ZMddWalk::Value(w) => w.remaining(),
            ZMddWalk::Bool(w) => w.remaining(),
        }
    }

    /// The number of paths that the enumeration starts with.
    pub open spec fn total(&self) -> nat {
        match self.walk {
            ZMddWalk::Value(w) => zmdd_count_spec(w.table(), w.targets(), w.root()),
            ZMddWalk::Bool(w) => zmdd_count_spec(w.table(), w.targets(), w.root()),
        }
    }

    /// The number of paths can be computed in a machine word.
    pub open spec fn countable(&self) -> bool {
        match self.walk {
            ZMddWalk::Value(w) => zmdd_count_fits::<V, u64>(w.table(), w.targets(), w.root()),
            ZMddWalk::Bool(w) => zmdd_count_fits::<bool, u64>(w.table(), w.targets(), w.root()),
        }
    }

    /// Starts the enumeration at `node`. Fails with `MissingNode` for a
    /// node that its table does not hold.
    pub fn new(mdd: &MtMdd2Manager<V>, node: &crate::mtmdd2::Node, ss: &[V]) -> (r: Result<
        Self,
        Error,
    >)
        requires
            mdd.wf(),
        ensures
            match r {
                Ok(it) => {
                    &&& it.wf()
                    &&& it.over(mdd)
                    &&& crate::mdd_count::node_valid(mdd, *node)
                    &&& it.total() == crate::mdd_count::path_count_of(mdd, *node, ss@)
                    &&& it.remaining().len() == it.total()
                    &&& it.remaining() == match *node {
                        crate::mtmdd2::Node::Value(id) => zmdd_paths(mdd.mtmdd@, ss@, id),
                        crate::mtmdd2::Node::Bool(id) => zmdd_paths(
                            mdd.mdd@,
                            bool_targets(ss@),
                            id,
                        ),
                    }
                },
                Err(e) => !crate::mdd_count::node_valid(mdd, *node) && e == Error::MissingNode,
            },
    {
        match node {
            crate::mtmdd2::Node::Value(id) => {
                match ZMddWalker::new(&mdd.mtmdd, *id, ss) {
                    Ok(w) => Ok(ZMddPath { walk: ZMddWalk::Value(w) }),
                    Err(e) => Err(e),
                }
            },
            crate::mtmdd2::Node::Bool(id) => {
                let sb = to_bool_targets(ss);
                match ZMddWalker::new(&mdd.mdd, *id, sb.as_slice()) {
                    Ok(w) => Ok(ZMddPath { walk: ZMddWalk::Bool(w) }),
                    Err(e) => Err(e),
                }
            },
        }
    }

    /// The number of paths that the enumeration starts with.
    pub fn len(&self, mdd: &MtMdd2Manager<V>) -> (r: u64)
        requires
            self.wf(),
            self.over(mdd),
            self.countable(),
        ensures
            r == self.total(),
    {
        match &self.walk {
            ZMddWalk::Value(w) => w.len(&mdd.mtmdd),
            ZMddWalk::Bool(w) => w.len(&mdd.mdd),
        }
    }

    /// Hands out the next path, or nothing when all are out.
    pub fn next(&mut self, mdd: &MtMdd2Manager<V>) -> (r: Option<Vec<(String, usize)>>)
        requires
            old(self).wf(),
            old(self).over(mdd),
        ensures
            final(self).wf(),
            final(self).over(mdd),
            final(self).total() == old(self).total(),
            final(self).countable() == old(self).countable(),
            match r {
                Some(p) => old(self).remaining().len() > 0 && entries_view(p@) == old(
                    self,
                ).remaining()[0] && final(self).remaining() == old(self).remaining().drop_first(),
                None => old(self).remaining().len() == 0 && final(self).remaining().len() == 0,
            },
    {
        match &mut self.walk {
            ZMddWalk::Value(w) => w.next(&mdd.mtmdd),
            ZMddWalk::Bool(w) => w.next(&mdd.mdd),
        }
    }
}

impl<L: Leaf> ZMddWalker<L> {
    /// The number of paths that the enumeration starts with.
    pub fn len(&self, dd: &NodeTable<L>) -> (r: u64)
        requires
            self.wf(),
            dd@ == self.table(),
            zmdd_count_fits::<L, u64>(self.table(), self.targets(), self.root()),
        ensures
            r == zmdd_count_spec(self.table(), self.targets(), self.root()),
    {
        let mut cache: HashMap<NodeId, u64> = HashMap::new();
        zmdd_count_rec::<L, u64>(dd, self.node, self.ss.as_slice(), &mut cache)
    }
}

/// The entries of `p` assign the `k` lowest variables, the highest
/// first: each entry names the variable of its level and a value of it.
pub open spec fn is_full_assignment<L>(dd: TableView<L>, k: nat, p: Assignment) -> bool {
    &&& p.len() == k
    &&& forall|j: int|
        0 <= j < k ==> (#[trigger] p[j]).0 == label_at(dd, (k - 1 - j) as nat) && p[j].1
            < edge_num_at(dd, (k - 1 - j) as nat)
}

/// The terminal value in which the diagram, entered at `id` with `k`
/// variables to go, ends under the assignment `p`: at a node that
/// decides on a variable the child for the value that `p` gives is taken.
pub open spec fn mdd_eval<L>(dd: TableView<L>, id: NodeId, k: nat, p: Assignment) -> Option<L>
    decreases k,
{
    if !dd.valid(id) {
        None
    } else if k == 0 || p.len() == 0 {
        match dd.nodes[id as int] {
            NodeView::Terminal(v) => Some(v),
            _ => None,
        }
    } else {
        mdd_eval(dd, branch(dd, k, id, p[0].1 as int), (k - 1) as nat, p.drop_first())
    }
}

/// Each assignment that the enumeration hands out assigns every one of
/// the `k` variables, and under it the diagram ends in a terminal of the
/// target set.
pub proof fn lemma_mdd_paths_sound<L>(dd: TableView<L>, ss: Seq<L>, k: nat, id: NodeId, j: int)
    requires
        0 <= j < mdd_paths(dd, ss, k, id).len(),
    ensures
        is_full_assignment(dd, k, mdd_paths(dd, ss, k, id)[j]),
        mdd_eval(dd, id, k, mdd_paths(dd, ss, k, id)[j]) is Some,
        ss.contains(mdd_eval(dd, id, k, mdd_paths(dd, ss, k, id)[j])->0),
    decreases k, 1nat, 0nat,
{
    if k > 0 {
        lemma_mdd_paths_from_sound(dd, ss, k, id, 0, j);
    }
}

proof fn lemma_mdd_paths_from_sound<L>(
    dd: TableView<L>,
    ss: Seq<L>,
    k: nat,
    id: NodeId,
    m: nat,
    j: int,
)
    requires
        k > 0,
        dd.valid(id),
        0 <= j < mdd_paths_from(dd, ss, k, id, m).len(),
    ensures
        is_full_assignment(dd, k, mdd_paths_from(dd, ss, k, id, m)[j]),
        mdd_paths_from(dd, ss, k, id, m)[j][0].1 >= m,
        mdd_eval(dd, id, k, mdd_paths_from(dd, ss, k, id, m)[j]) is Some,
        ss.contains(mdd_eval(dd, id, k, mdd_paths_from(dd, ss, k, id, m)[j])->0),
    decreases k, 0nat, edge_num_at(dd, (k - 1) as nat) - m,
{
    let l = (k - 1) as nat;
    let c = branch(dd, k, id, m as int);
    let these = with_first(mdd_paths(dd, ss, l, c), (label_at(dd, l), m as usize));
    let later = mdd_paths_from(dd, ss, k, id, m + 1);
    let all = mdd_paths_from(dd, ss, k, id, m);
    assert(all == these + later);
    if j < these.len() {
        let tail = mdd_paths(dd, ss, l, c)[j];
        lemma_mdd_paths_sound(dd, ss, l, c, j);
        let p = all[j];
        assert(p == seq![(label_at(dd, l), m as usize)] + tail);
        assert(p.drop_first() =~= tail);
        assert(p[0] == (label_at(dd, l), m as usize));
        assert forall|i: int| 0 <= i < k implies (#[trigger] p[i]).0 == label_at(
            dd,
            (k - 1 - i) as nat,
        ) && p[i].1 < edge_num_at(dd, (k - 1 - i) as nat) by {
            if i > 0 {
                assert(p[i] == tail[i - 1]);
            }
        }
    } else {
        lemma_mdd_paths_from_sound(dd, ss, k, id, m + 1, j - these.len());
        assert(all[j] == later[j - these.len()]);
    }
}

/// No assignment is handed out twice.
pub proof fn lemma_mdd_paths_distinct<L>(
    dd: TableView<L>,
    ss: Seq<L>,
    k: nat,
    id: NodeId,
    i: int,
    j: int,
)
    requires
        0 <= i < j < mdd_paths(dd, ss, k, id).len(),
    ensures
        mdd_paths(dd, ss, k, id)[i] != mdd_paths(dd, ss, k, id)[j],
    decreases k, 1nat, 0nat,
{
    if k > 0 {
        lemma_mdd_paths_from_distinct(dd, ss, k, id, 0, i, j);
    }
}

proof fn lemma_mdd_paths_from_distinct<L>(
    dd: TableView<L>,
    ss: Seq<L>,
    k: nat,
    id: NodeId,
    m: nat,
    i: int,
    j: int,
)
    requires
        k > 0,
        dd.valid(id),
        0 <= i < j < mdd_paths_from(dd, ss, k, id, m).len(),
    ensures
        mdd_paths_from(dd, ss, k, id, m)[i] != mdd_paths_from(dd, ss, k, id, m)[j],
    decreases k, 0nat, edge_num_at(dd, (k - 1) as nat) - m,
{
    let l = (k - 1) as nat;
    let c = branch(dd, k, id, m as int);
    let inner = mdd_paths(dd, ss, l, c);
    let entry = (label_at(dd, l), m as usize);
    let these = with_first(inner, entry);
    let later = mdd_paths_from(dd, ss, k, id, m + 1);
    let all = mdd_paths_from(dd, ss, k, id, m);
    assert(all == these + later);
    if j < these.len() {
        lemma_mdd_paths_distinct(dd, ss, l, c, i, j);
        assert(all[i] == seq![entry] + inner[i] && all[j] == seq![entry] + inner[j]);
        assert(all[i].drop_first() =~= inner[i] && all[j].drop_first() =~= inner[j]);
    } else if i >= these.len() {
        lemma_mdd_paths_from_distinct(dd, ss, k, id, m + 1, i - these.len(), j - these.len());
        assert(all[i] == later[i - these.len()] && all[j] == later[j - these.len()]);
    } else {
        lemma_mdd_paths_from_sound(dd, ss, k, id, m + 1, j - these.len());
        assert(all[j] == later[j - these.len()]);
        assert(all[i] == seq![entry] + inner[i]);
        assert(all[i][0] == entry);
        assert(all[j][0].1 >= m + 1);
    }
}

/// Where the diagram ends in a terminal, the node it is entered at is in
/// the table and is not the undetermined terminal.
proof fn lemma_mdd_eval_defined<L>(dd: TableView<L>, id: NodeId, k: nat, p: Assignment)
    requires
        p.len() == k,
        mdd_eval(dd, id, k, p) is Some,
    ensures
        dd.valid(id),
        !(dd.nodes[id as int] is Undet),
    decreases k,
{
    if k > 0 && dd.valid(id) {
        if !decides(dd, k, id) {
            lemma_mdd_eval_defined(dd, id, (k - 1) as nat, p.drop_first());
        }
    }
}

/// Every satisfying assignment is handed out: an assignment of the `k`
/// lowest variables under which the diagram ends in a terminal of the
/// target set is one of the assignments of the enumeration. The place at
/// which it comes is returned.
pub proof fn lemma_mdd_paths_complete<L>(
    dd: TableView<L>,
    ss: Seq<L>,
    k: nat,
    id: NodeId,
    p: Assignment,
) -> (j: int)
    requires
        is_full_assignment(dd, k, p),
        mdd_eval(dd, id, k, p) is Some,
        ss.contains(mdd_eval(dd, id, k, p)->0),
    ensures
        0 <= j < mdd_paths(dd, ss, k, id).len(),
        mdd_paths(dd, ss, k, id)[j] == p,
    decreases k, 1nat, 0nat,
{
    lemma_mdd_eval_defined(dd, id, k, p);
    if k == 0 {
        assert(p =~= Seq::<(Seq<char>, usize)>::empty());
        0
    } else {
        lemma_mdd_paths_from_complete(dd, ss, k, id, p, 0)
    }
}

proof fn lemma_mdd_paths_from_complete<L>(
    dd: TableView<L>,
    ss: Seq<L>,
    k: nat,
    id: NodeId,
    p: Assignment,
    m: nat,
) -> (j: int)
    requires
        k > 0,
        dd.valid(id),
        !(dd.nodes[id as int] is Undet),
        is_full_assignment(dd, k, p),
        p[0].1 >= m,
        mdd_eval(dd, id, k, p) is Some,
        ss.contains(mdd_eval(dd, id, k, p)->0),
    ensures
        0 <= j < mdd_paths_from(dd, ss, k, id, m).len(),
        mdd_paths_from(dd, ss, k, id, m)[j] == p,
    decreases k, 0nat, edge_num_at(dd, (k - 1) as nat) - m,
{
    let l = (k - 1) as nat;
    let c = branch(dd, k, id, m as int);
    let inner = mdd_paths(dd, ss, l, c);
    let entry = (label_at(dd, l), m as usize);
    let these = with_first(inner, entry);
    let later = mdd_paths_from(dd, ss, k, id, m + 1);
    assert(p[0].0 == label_at(dd, l) && p[0].1 < edge_num_at(dd, l));
    assert(mdd_paths_from(dd, ss, k, id, m) == these + later);
    if p[0].1 == m {
        let q = p.drop_first();
        assert(is_full_assignment(dd, l, q)) by {
            assert forall|i: int| 0 <= i < l implies (#[trigger] q[i]).0 == label_at(
                dd,
                (l - 1 - i) as nat,
            ) && q[i].1 < edge_num_at(dd, (l - 1 - i) as nat) by {
                assert(q[i] == p[i + 1]);
            }
        }
        let i = lemma_mdd_paths_complete(dd, ss, l, c, q);
        assert(these[i] == seq![entry] + inner[i]);
        assert(seq![entry] + q =~= p);
        i
    } else {
        let i = lemma_mdd_paths_from_complete(dd, ss, k, id, p, m + 1);
        these.len() + i
    }
}

} // verus!
