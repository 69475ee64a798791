use crate::bdd_count::{
    bdd_count, bdd_count_fits, bdd_count_spec, lemma_count_of_nothing, zdd_count, zdd_count_fits,
    zdd_count_spec,
};
use crate::common::{contains, Error, HeaderId, Level, NodeId};
use crate::levels::{expected, headers_by_level, level_headers, levels_named};
use crate::bdd_count::skip_weight;
use crate::numeric::{lemma_power_adds, power_spec};
use crate::table::{Node, NodeTable, NodeView, TableView};
use std::collections::HashMap;
use vstd::prelude::*;
use vstd::string::*;

verus! {

/// One satisfying assignment: its literals, the lowest variable first.
pub type PathView = Seq<Seq<char>>;

/// An instruction on the stack of a path iterator over a BDD.
pub enum BddStackValue {
    /// Enumerate the assignments of the variables up to the given level
    /// that lead from the node to a terminal of the target set.
    Node(Option<Level>, NodeId),
    /// Put a literal on the path.
    Push(String),
    /// Take the last literal off the path.
    Pop,
}

/// An instruction as a mathematical value.
pub enum InstrView {
    Node(Option<Level>, NodeId),
    Push(Seq<char>),
    Pop,
}

impl View for BddStackValue {
    type V = InstrView;

    open spec fn view(&self) -> InstrView {
        match self {
            BddStackValue::Node(l, id) => InstrView::Node(*l, *id),
            BddStackValue::Push(x) => InstrView::Push(x@),
            BddStackValue::Pop => InstrView::Pop,
        }
    }
}

/// The label of the variable at level `l`.
pub open spec fn level_label(dd: TableView<bool>, l: nat) -> Seq<char> {
    dd.headers[dd.header_at(l as Level) as int].label
}

/// The negative literal of a variable.
pub open spec fn negated(label: Seq<char>) -> Seq<char> {
    "~"@ + label
}

/// Each path of `paths` with `lit` as its next literal.
pub open spec fn with_literal(paths: Seq<PathView>, lit: Seq<char>) -> Seq<PathView> {
    paths.map_values(|p: PathView| p.push(lit))
}

/// The assignments of the `k` lowest variables under which the diagram,
/// entered at `id`, ends in a terminal of `ss`, in the order of the
/// enumeration: for the highest of these variables first the assignments
/// with its negative literal, then those with its positive literal. A
/// variable that the diagram does not decide on takes both values.
pub open spec fn bdd_paths(dd: TableView<bool>, ss: Seq<bool>, k: nat, id: NodeId) -> Seq<PathView>
    decreases k,
{
    if !dd.valid(id) || dd.nodes[id as int] is Undet {
        Seq::empty()
    } else if k == 0 {
        match dd.nodes[id as int] {
            NodeView::Terminal(v) => if ss.contains(v) {
                seq![Seq::empty()]
            } else {
                Seq::empty()
            },
            _ => Seq::empty(),
        }
    } else {
        let l = (k - 1) as nat;
        let x = level_label(dd, l);
        let lo = if descends(dd, k, id) {
            dd.children(id)[0]
        } else {
            id
        };
        let hi = if descends(dd, k, id) {
            dd.children(id)[1]
        } else {
            id
        };
        with_literal(bdd_paths(dd, ss, l, lo), negated(x)) + with_literal(
            bdd_paths(dd, ss, l, hi),
            x,
        )
    }
}

/// The node `id` decides on the highest of the `k` lowest variables.
pub open spec fn descends(dd: TableView<bool>, k: nat, id: NodeId) -> bool {
    dd.is_nonterminal(id) && dd.rank(id) == k && dd.children(id).len() == 2
}

/// The path `p` as it is handed out below the literals of `path`.
pub open spec fn below(paths: Seq<PathView>, path: PathView) -> Seq<PathView> {
    paths.map_values(|p: PathView| p + path.reverse())
}

/// The path without its last literal; an empty path stays.
pub open spec fn pop_spec(path: PathView) -> PathView {
    if path.len() > 0 {
        path.drop_last()
    } else {
        path
    }
}

/// The paths that the iterator still has to hand out, in their order,
/// given its stack and the literals on its path.
pub open spec fn bdd_pending(
    dd: TableView<bool>,
    ss: Seq<bool>,
    stack: Seq<InstrView>,
    path: PathView,
) -> Seq<PathView>
    decreases stack.len(),
{
    if stack.len() == 0 {
        Seq::empty()
    } else {
        let rest = stack.drop_last();
        match stack.last() {
            InstrView::Push(x) => bdd_pending(dd, ss, rest, path.push(x)),
            InstrView::Pop => bdd_pending(dd, ss, rest, pop_spec(path)),
            InstrView::Node(level, id) => below(bdd_paths(dd, ss, expected(level), id), path)
                + bdd_pending(dd, ss, rest, path),
        }
    }
}

/// An upper bound on the steps that a node instruction with `k`
/// variables to go can cause.
pub open spec fn node_cost(k: nat) -> nat
    decreases k,
{
    if k == 0 {
        1
    } else {
        2 * node_cost((k - 1) as nat) + 5
    }
}

pub open spec fn instr_cost(i: InstrView) -> nat {
    match i {
        InstrView::Node(level, _) => node_cost(expected(level)),
        _ => 1,
    }
}

/// An upper bound on the steps that a stack can cause.
pub open spec fn stack_cost(stack: Seq<InstrView>) -> nat
    decreases stack.len(),
{
    if stack.len() == 0 {
        0
    } else {
        stack_cost(stack.drop_last()) + instr_cost(stack.last())
    }
}

pub open spec fn stack_view(stack: Seq<BddStackValue>) -> Seq<InstrView> {
    stack.map_values(|i: BddStackValue| i@)
}

pub open spec fn strings_view(v: Seq<String>) -> PathView {
    v.map_values(|s: String| s@)
}

proof fn lemma_pending_push(
    dd: TableView<bool>,
    ss: Seq<bool>,
    rest: Seq<InstrView>,
    i: InstrView,
    path: PathView,
)
    ensures
        bdd_pending(dd, ss, rest.push(i), path) == match i {
            InstrView::Push(x) => bdd_pending(dd, ss, rest, path.push(x)),
            InstrView::Pop => bdd_pending(dd, ss, rest, pop_spec(path)),
            InstrView::Node(level, id) => below(bdd_paths(dd, ss, expected(level), id), path)
                + bdd_pending(dd, ss, rest, path),
        },
        stack_cost(rest.push(i)) == stack_cost(rest) + instr_cost(i),
{
    assert(rest.push(i).drop_last() =~= rest);
    assert(rest.push(i).last() == i);
}

proof fn lemma_below_literal(paths: Seq<PathView>, lit: Seq<char>, path: PathView)
    ensures
        below(with_literal(paths, lit), path) == below(paths, path.push(lit)),
{
    assert(path.push(lit).reverse() =~= seq![lit] + path.reverse());
    let a = below(with_literal(paths, lit), path);
    let b = below(paths, path.push(lit));
    assert(a.len() == b.len());
    assert forall|i: int| 0 <= i < a.len() implies a[i] == b[i] by {
        assert(a[i] == paths[i].push(lit) + path.reverse());
        assert(b[i] == paths[i] + path.push(lit).reverse());
        assert(paths[i].push(lit) + path.reverse() =~= paths[i] + (seq![lit] + path.reverse()));
    }
    assert(a =~= b);
}

proof fn lemma_below_concat(a: Seq<PathView>, b: Seq<PathView>, path: PathView)
    ensures
        below(a + b, path) == below(a, path) + below(b, path),
{
    assert(below(a + b, path) =~= below(a, path) + below(b, path));
}

/// Taking a node instruction apart into its two branches keeps what is
/// pending.
proof fn lemma_bdd_expand(
    dd: TableView<bool>,
    ss: Seq<bool>,
    rest: Seq<InstrView>,
    path: PathView,
    lower: Option<Level>,
    lo: NodeId,
    hi: NodeId,
    x: Seq<char>,
)
    ensures
        bdd_pending(
            dd,
            ss,
            rest.push(InstrView::Pop).push(InstrView::Node(lower, hi)).push(InstrView::Push(x)).push(
                InstrView::Pop,
            ).push(InstrView::Node(lower, lo)).push(InstrView::Push(negated(x))),
            path,
        ) == below(
            with_literal(bdd_paths(dd, ss, expected(lower), lo), negated(x)) + with_literal(
                bdd_paths(dd, ss, expected(lower), hi),
                x,
            ),
            path,
        ) + bdd_pending(dd, ss, rest, path),
        stack_cost(
            rest.push(InstrView::Pop).push(InstrView::Node(lower, hi)).push(InstrView::Push(x)).push(
                InstrView::Pop,
            ).push(InstrView::Node(lower, lo)).push(InstrView::Push(negated(x))),
        ) == stack_cost(rest) + 2 * node_cost(expected(lower)) + 4,
{
    let nx = negated(x);
    let s1 = rest.push(InstrView::Pop);
    let s2 = s1.push(InstrView::Node(lower, hi));
    let s3 = s2.push(InstrView::Push(x));
    let s4 = s3.push(InstrView::Pop);
    let s5 = s4.push(InstrView::Node(lower, lo));
    let s6 = s5.push(InstrView::Push(nx));
    let plo = bdd_paths(dd, ss, expected(lower), lo);
    let phi = bdd_paths(dd, ss, expected(lower), hi);
    lemma_pending_push(dd, ss, s5, InstrView::Push(nx), path);
    lemma_pending_push(dd, ss, s4, InstrView::Node(lower, lo), path.push(nx));
    lemma_pending_push(dd, ss, s3, InstrView::Pop, path.push(nx));
    assert(pop_spec(path.push(nx)) =~= path);
    lemma_pending_push(dd, ss, s2, InstrView::Push(x), path);
    lemma_pending_push(dd, ss, s1, InstrView::Node(lower, hi), path.push(x));
    lemma_pending_push(dd, ss, rest, InstrView::Pop, path.push(x));
    assert(pop_spec(path.push(x)) =~= path);
    lemma_below_literal(plo, nx, path);
    lemma_below_literal(phi, x, path);
    lemma_below_concat(with_literal(plo, nx), with_literal(phi, x), path);
    let tail = bdd_pending(dd, ss, rest, path);
    assert(below(plo, path.push(nx)) + (below(phi, path.push(x)) + tail) =~= (below(
        plo,
        path.push(nx),
    ) + below(phi, path.push(x))) + tail);
}

/// An iterator over the satisfying assignments of a node of a BDD: the
/// assignments to all variables at and below the node under which the
/// diagram ends in a terminal of the target set. Each assignment comes as
/// the list of its literals, the lowest variable first, a variable's
/// label for true and the label after `~` for false.
pub struct BddPath {
    table: Ghost<TableView<bool>>,
    next_stack: Vec<BddStackValue>,
    path: Vec<String>,
    node: NodeId,
    by_level: Vec<HeaderId>,
    ss: Vec<bool>,
}

impl BddPath {
    /// The diagram.
    pub closed spec fn table(&self) -> TableView<bool> {
        self.table@
    }

    /// The node whose assignments are enumerated.
    pub closed spec fn root(&self) -> NodeId {
        self.node
    }

    /// The target set.
    pub closed spec fn targets(&self) -> Seq<bool> {
        self.ss@
    }

    /// The assignments that are still to come, in their order.
    pub closed spec fn remaining(&self) -> Seq<PathView> {
        bdd_pending(self.table@, self.ss@, stack_view(self.next_stack@), strings_view(self.path@))
    }

    /// The iterator is in order: the diagram is a well formed binary
    /// diagram, every level that may have to be named has its label, and
    /// no node on the stack stands above the level expected there.
    pub closed spec fn wf(&self) -> bool {
        &&& self.table@.wf()
        &&& self.table@.binary()
        &&& self.table@.valid(self.node)
        &&& headers_by_level(self.table@, self.by_level@)
        &&& forall|j: int|
            0 <= j < self.next_stack@.len() ==> instr_ok(
                self.table@,
                self.by_level@.len() as nat,
                #[trigger] self.next_stack@[j]@,
            )
    }

    /// Starts the enumeration at `node`. Fails with `MissingNode` for a
    /// node that the table does not hold, and with `MissingHeader` where
    /// a level below that of `node` has no header, so that its variable
    /// has no name.
    pub fn new(dd: &NodeTable<bool>, node: NodeId, ss: &[bool]) -> (r: Result<Self, Error>)
        requires
            dd@.wf(),
            dd@.binary(),
        ensures
            match r {
                Ok(it) => {
                    &&& it.wf()
                    &&& it.table() == dd@
                    &&& it.root() == node
                    &&& it.targets() == ss@
                    &&& dd@.valid(node)
                    &&& levels_named(dd@, dd@.rank(node))
                    &&& it.remaining() == bdd_paths(dd@, ss@, dd@.rank(node), node)
                    &&& it.remaining().len() == bdd_count_spec(dd@, ss@, node)
                },
                Err(e) => if !dd@.valid(node) {
                    e == Error::MissingNode
                } else {
                    e == Error::MissingHeader && !levels_named(dd@, dd@.rank(node))
                },
            },
    {
        if dd.get_node(node).is_none() {
            return Err(Error::MissingNode);
        }
        let level = dd.level(node);
        let by_level = match level_headers(dd, level) {
            Ok(v) => v,
            Err(e) => {
                return Err(e);
            },
        };
        let mut targets: Vec<bool> = Vec::new();
        let mut i: usize = 0;
        while i < ss.len()
            invariant
                i <= ss.len(),
                targets@ =~= ss@.subrange(0, i as int),
            decreases ss.len() - i,
        {
            targets.push(ss[i]);
            i = i + 1;
        }
        assert(targets@ =~= ss@);
        let mut next_stack: Vec<BddStackValue> = Vec::new();
        next_stack.push(BddStackValue::Node(level, node));
        let it = BddPath { table: Ghost(dd@), next_stack, path: Vec::new(), node, by_level, ss: targets };
        proof {
            let stack = stack_view(it.next_stack@);
            assert(stack =~= Seq::<InstrView>::empty().push(InstrView::Node(level, node)));
            lemma_pending_push(
                dd@,
                ss@,
                Seq::empty(),
                InstrView::Node(level, node),
                strings_view(it.path@),
            );
            let paths = bdd_paths(dd@, ss@, dd@.rank(node), node);
            assert(strings_view(it.path@) =~= Seq::<Seq<char>>::empty());
            assert(Seq::<Seq<char>>::empty().reverse() =~= Seq::<Seq<char>>::empty());
            assert(below(paths, Seq::empty()) =~= paths) by {
                assert forall|j: int| 0 <= j < paths.len() implies below(paths, Seq::empty())[j]
                    == paths[j] by {
                    assert(paths[j] + Seq::<Seq<char>>::empty() =~= paths[j]);
                }
            }
            assert(paths + Seq::<PathView>::empty() =~= paths);
            assert(expected(level) == dd@.rank(node));
            assert(levels_named(dd@, dd@.rank(node)));
            lemma_bdd_paths_len(dd@, ss@, dd@.rank(node), node);
        }
        Ok(it)
    }

    /// The number of assignments that the enumeration starts with.
    pub fn len(&self, dd: &NodeTable<bool>) -> (r: u64)
        requires
            self.wf(),
            dd@ == self.table(),
            bdd_count_fits::<u64>(self.table(), self.targets(), self.root()),
        ensures
            r == bdd_count_spec(self.table(), self.targets(), self.root()),
    {
        let mut cache: HashMap<NodeId, u64> = HashMap::new();
        bdd_count(dd, self.ss.as_slice(), self.node, &mut cache)
    }

    /// Hands out the next assignment, or nothing when all are out.
    pub fn next(&mut self, dd: &NodeTable<bool>) -> (r: Option<Vec<String>>)
        requires
            old(self).wf(),
            dd@ == old(self).table(),
        ensures
            final(self).wf(),
            final(self).table() == old(self).table(),
            final(self).root() == old(self).root(),
            final(self).targets() == old(self).targets(),
            match r {
                Some(p) => old(self).remaining().len() > 0 && strings_view(p@) == old(
                    self,
                ).remaining()[0] && final(self).remaining() == old(self).remaining().drop_first(),
                None => old(self).remaining().len() == 0 && final(self).remaining().len() == 0,
            },
    {
        loop
            invariant
                self.wf(),
                self.table == old(self).table,
                dd@ == self.table@,
                self.node == old(self).node,
                self.ss == old(self).ss,
                self.by_level == old(self).by_level,
                self.remaining() == old(self).remaining(),
            decreases stack_cost(stack_view(self.next_stack@)),
        {
            let ghost stack0 = stack_view(self.next_stack@);
            let ghost path0 = strings_view(self.path@);
            let ghost exec0 = self.next_stack@;
            let top = self.next_stack.pop();
            proof {
                if exec0.len() > 0 {
                    assert(stack_view(self.next_stack@) =~= stack0.drop_last());
                    assert(stack0.last() == exec0.last()@);
                    assert(instr_ok(self.table@, self.by_level@.len() as nat, exec0[exec0.len() - 1]@));
                }
            }
            match top {
                None => {
                    return None;
                },
                Some(BddStackValue::Push(x)) => {
                    self.path.push(x);
                    assert(strings_view(self.path@) =~= path0.push(x@));
                },
                Some(BddStackValue::Pop) => {
                    self.path.pop();
                    assert(strings_view(self.path@) =~= pop_spec(path0));
                },
                Some(BddStackValue::Node(level, nodeid)) => {
                    let ghost k = expected(level);
                    let ghost rest = stack0.drop_last();
                    match level {
                        None => {
                            let hit = match dd.get_node(nodeid).unwrap() {
                                Node::Terminal(v) => contains(self.ss.as_slice(), v),
                                _ => false,
                            };
                            if hit {
                                let result = reversed_strings(&self.path);
                                proof {
                                    let paths = bdd_paths(self.table@, self.ss@, 0, nodeid);
                                    assert(paths =~= seq![Seq::<Seq<char>>::empty()]);
                                    assert(below(paths, path0)[0] =~= path0.reverse());
                                    let tail = bdd_pending(self.table@, self.ss@, rest, path0);
                                    assert((below(paths, path0) + tail).drop_first() =~= tail);
                                }
                                return Some(result);
                            } else {
                                proof {
                                    let paths = bdd_paths(self.table@, self.ss@, 0, nodeid);
                                    assert(paths =~= Seq::<PathView>::empty());
                                    let tail = bdd_pending(self.table@, self.ss@, rest, path0);
                                    assert(below(paths, path0) + tail =~= tail);
                                }
                            }
                        },
                        Some(l) => {
                            let (go, lo, hi) = match dd.get_node(nodeid).unwrap() {
                                Node::Undet => (false, nodeid, nodeid),
                                Node::Terminal(_) => (true, nodeid, nodeid),
                                Node::NonTerminal { header, children } => {
                                    proof {
                                        assert(self.table@.node_linked(nodeid));
                                        assert(self.table@.node_descends(nodeid));
                                        assert(self.table@.is_nonterminal(nodeid));
                                        assert(self.table@.children(nodeid) == children@);
                                        assert(self.table@.valid(children@[0]));
                                        assert(self.table@.valid(children@[1]));
                                        assert(self.table@.rank(children@[0]) < self.table@.rank(nodeid));
                                        assert(self.table@.rank(children@[1]) < self.table@.rank(nodeid));
                                    }
                                    let here = match dd.level(nodeid) {
                                        Some(own) => own == l,
                                        None => false,
                                    };
                                    if here {
                                        (true, children[0], children[1])
                                    } else {
                                        (true, nodeid, nodeid)
                                    }
                                },
                            };
                            if go {
                                let lower: Option<Level> = if l > 0 {
                                    Some(l - 1)
                                } else {
                                    None
                                };
                                let h = self.by_level[l];
                                let x = dd.get_header(h).unwrap().label().clone();
                                let nx = String::from_str("~").concat(x.as_str());
                                proof {
                                    assert(x@ == level_label(self.table@, l as nat));
                                    assert(nx@ == negated(x@));
                                    assert(expected(lower) == (k - 1) as nat);
                                    lemma_bdd_expand(
                                        self.table@,
                                        self.ss@,
                                        rest,
                                        path0,
                                        lower,
                                        lo,
                                        hi,
                                        x@,
                                    );
                                    assert(node_cost(k) == 2 * node_cost((k - 1) as nat) + 5);
                                }
                                self.next_stack.push(BddStackValue::Pop);
                                self.next_stack.push(BddStackValue::Node(lower, hi));
                                self.next_stack.push(BddStackValue::Push(x));
                                self.next_stack.push(BddStackValue::Pop);
                                self.next_stack.push(BddStackValue::Node(lower, lo));
                                self.next_stack.push(BddStackValue::Push(nx));
                                proof {
                                    assert(stack_view(self.next_stack@) =~= rest.push(
                                        InstrView::Pop,
                                    ).push(InstrView::Node(lower, hi)).push(
                                        InstrView::Push(x@),
                                    ).push(InstrView::Pop).push(InstrView::Node(lower, lo)).push(
                                        InstrView::Push(negated(x@)),
                                    ));
                                }
                            } else {
                                proof {
                                    let paths = bdd_paths(self.table@, self.ss@, k, nodeid);
                                    assert(paths =~= Seq::<PathView>::empty());
                                    let tail = bdd_pending(self.table@, self.ss@, rest, path0);
                                    assert(below(paths, path0) + tail =~= tail);
                                }
                            }
                        },
                    }
                },
            }
        }
    }
}

/// An instruction names a node of the table that does not stand above
/// the level expected, and no level above those that have a label.
pub open spec fn instr_ok(dd: TableView<bool>, named: nat, i: InstrView) -> bool {
    match i {
        InstrView::Node(level, id) => dd.valid(id) && dd.rank(id) <= expected(level) && expected(
            level,
        ) <= named,
        _ => true,
    }
}

/// A machine word of 64 bits holds two to a power below 64, and so the
/// counts of a node with fewer than 64 variables.
pub proof fn lemma_pow2_64(r: nat)
    requires
        r < 64,
    ensures
        power_spec(2, r) <= u64::MAX,
        <u64 as crate::numeric::CountValue>::fits(power_spec(2, r)),
{
    crate::numeric::lemma_power_grows(2, r, 63);
    assert(power_spec(2, 16) == 0x1_0000) by {
        reveal_with_fuel(power_spec, 17);
    }
    crate::numeric::lemma_power_adds(2, 16, 16);
    crate::numeric::lemma_power_adds(2, 32, 16);
    assert(power_spec(2, 15) == 0x8000) by {
        reveal_with_fuel(power_spec, 16);
    }
    crate::numeric::lemma_power_adds(2, 48, 15);
    assert(power_spec(2, 63) == 0x8000_0000_0000_0000);
}

/// The strings of `v` in the opposite order.
fn reversed_strings(v: &Vec<String>) -> (r: Vec<String>)
    ensures
        strings_view(r@) == strings_view(v@).reverse(),
{
    let mut r: Vec<String> = Vec::new();
    let mut i: usize = v.len();
    while i > 0
        invariant
            i <= v.len(),
            r@.len() == v.len() - i,
            forall|j: int| 0 <= j < r@.len() ==> (#[trigger] r@[j])@ == v@[v.len() - 1 - j]@,
        decreases i,
    {
        i = i - 1;
        r.push(v[i].clone());
    }
    assert(strings_view(r@) =~= strings_view(v@).reverse());
    r
}

/// For the empty target set the enumerations hand out nothing.
pub proof fn lemma_no_paths_to_nothing(dd: TableView<bool>, k: nat, id: NodeId)
    requires
        dd.wf(),
        dd.binary(),
        dd.valid(id),
        dd.rank(id) <= k,
    ensures
        bdd_paths(dd, Seq::empty(), k, id).len() == 0,
        zdd_paths(dd, Seq::empty(), id).len() == 0,
{
    lemma_bdd_paths_len(dd, Seq::empty(), k, id);
    lemma_zdd_paths_len(dd, Seq::empty(), id);
    lemma_count_of_nothing(dd, id);
    assert(power_spec(2, (k - dd.rank(id)) as nat) * 0 == 0);
}

/// The enumeration hands out as many assignments as `bdd_count` counts:
/// over the `k` lowest variables, two for each variable above the node
/// times the count of the node.
pub proof fn lemma_bdd_paths_len(dd: TableView<bool>, ss: Seq<bool>, k: nat, id: NodeId)
    requires
        dd.wf(),
        dd.binary(),
        dd.valid(id),
        dd.rank(id) <= k,
    ensures
        bdd_paths(dd, ss, k, id).len() == power_spec(2, (k - dd.rank(id)) as nat) * bdd_count_spec(
            dd,
            ss,
            id,
        ),
        k == dd.rank(id) ==> bdd_paths(dd, ss, k, id).len() == bdd_count_spec(dd, ss, id),
    decreases k,
{
    assert(power_spec(2, 0) == 1);
    let d = (k - dd.rank(id)) as nat;
    let c = bdd_count_spec(dd, ss, id);
    if dd.nodes[id as int] is Undet {
        assert(power_spec(2, d) * 0 == 0);
    } else if k == 0 {
        assert(1 * c == c);
    } else {
        let l = (k - 1) as nat;
        assert(dd.node_linked(id));
        assert(dd.node_descends(id));
        if descends(dd, k, id) {
            let lo = dd.children(id)[0];
            let hi = dd.children(id)[1];
            assert(dd.valid(lo) && dd.valid(hi));
            assert(dd.rank(lo) < dd.rank(id) && dd.rank(hi) < dd.rank(id));
            lemma_bdd_paths_len(dd, ss, l, lo);
            lemma_bdd_paths_len(dd, ss, l, hi);
            assert(skip_weight(dd, id, lo) == power_spec(2, (l - dd.rank(lo)) as nat));
            assert(skip_weight(dd, id, hi) == power_spec(2, (l - dd.rank(hi)) as nat));
            assert(1 * c == c);
        } else {
            assert(dd.rank(id) < k) by {
                if dd.is_nonterminal(id) {
                    assert(dd.children(id).len() == 2);
                }
            }
            lemma_bdd_paths_len(dd, ss, l, id);
            let e = (l - dd.rank(id)) as nat;
            assert(power_spec(2, d) == 2 * power_spec(2, e));
            assert(power_spec(2, e) * c + power_spec(2, e) * c == (2 * power_spec(2, e)) * c)
                by (nonlinear_arith);
        }
    }
}

/// An instruction on the stack of a path iterator over a ZDD.
pub enum ZddStackValue {
    /// Enumerate the paths from the node to a terminal of the target set.
    Node(NodeId),
    /// Put a label on the path.
    Push(String),
    /// Take the last label off the path.
    Pop,
}

/// An instruction of a ZDD iterator as a mathematical value.
pub enum ZddInstrView {
    Node(NodeId),
    Push(Seq<char>),
    Pop,
}

impl View for ZddStackValue {
    type V = ZddInstrView;

    open spec fn view(&self) -> ZddInstrView {
        match self {
            ZddStackValue::Node(id) => ZddInstrView::Node(*id),
            ZddStackValue::Push(x) => ZddInstrView::Push(x@),
            ZddStackValue::Pop => ZddInstrView::Pop,
        }
    }
}

/// The paths from `id` to a terminal of `ss`, each as the labels of the
/// variables that it takes the high edge of, the lowest first: first the
/// paths through the low child, then those through the high child.
pub open spec fn zdd_paths(dd: TableView<bool>, ss: Seq<bool>, id: NodeId) -> Seq<PathView>
    decreases dd.rank(id),
{
    if !dd.valid(id) {
        Seq::empty()
    } else {
        match dd.nodes[id as int] {
            NodeView::Terminal(v) => if ss.contains(v) {
                seq![Seq::empty()]
            } else {
                Seq::empty()
            },
            NodeView::Undet => Seq::empty(),
            NodeView::NonTerminal { header, children } => {
                if children.len() == 2 && dd.rank(children[0]) < dd.rank(id) && dd.rank(
                    children[1],
                ) < dd.rank(id) {
                    zdd_paths(dd, ss, children[0]) + with_literal(
                        zdd_paths(dd, ss, children[1]),
                        dd.header(id).label,
                    )
                } else {
                    Seq::empty()
                }
            },
        }
    }
}

/// The paths that a ZDD iterator still has to hand out, in their order.
pub open spec fn zdd_pending(
    dd: TableView<bool>,
    ss: Seq<bool>,
    stack: Seq<ZddInstrView>,
    path: PathView,
) -> Seq<PathView>
    decreases stack.len(),
{
    if stack.len() == 0 {
        Seq::empty()
    } else {
        let rest = stack.drop_last();
        match stack.last() {
            ZddInstrView::Push(x) => zdd_pending(dd, ss, rest, path.push(x)),
            ZddInstrView::Pop => zdd_pending(dd, ss, rest, pop_spec(path)),
            ZddInstrView::Node(id) => below(zdd_paths(dd, ss, id), path) + zdd_pending(
                dd,
                ss,
                rest,
                path,
            ),
        }
    }
}

/// An upper bound on the steps that a node of rank `r` can cause.
pub open spec fn zdd_node_cost(r: nat) -> nat
    decreases r,
{
    if r == 0 {
        1
    } else {
        2 * zdd_node_cost((r - 1) as nat) + 3
    }
}

proof fn lemma_zdd_node_cost_grows(a: nat, b: nat)
    requires
        a <= b,
    ensures
        zdd_node_cost(a) <= zdd_node_cost(b),
    decreases b,
{
    if a < b {
        lemma_zdd_node_cost_grows(a, (b - 1) as nat);
    }
}

pub open spec fn zdd_instr_cost(dd: TableView<bool>, i: ZddInstrView) -> nat {
    match i {
        ZddInstrView::Node(id) => zdd_node_cost(dd.rank(id)),
        _ => 1,
    }
}

pub open spec fn zdd_stack_cost(dd: TableView<bool>, stack: Seq<ZddInstrView>) -> nat
    decreases stack.len(),
{
    if stack.len() == 0 {
        0
    } else {
        zdd_stack_cost(dd, stack.drop_last()) + zdd_instr_cost(dd, stack.last())
    }
}

pub open spec fn zdd_stack_view(stack: Seq<ZddStackValue>) -> Seq<ZddInstrView> {
    stack.map_values(|i: ZddStackValue| i@)
}

proof fn lemma_zdd_pending_push(
    dd: TableView<bool>,
    ss: Seq<bool>,
    rest: Seq<ZddInstrView>,
    i: ZddInstrView,
    path: PathView,
)
    ensures
        zdd_pending(dd, ss, rest.push(i), path) == match i {
            ZddInstrView::Push(x) => zdd_pending(dd, ss, rest, path.push(x)),
            ZddInstrView::Pop => zdd_pending(dd, ss, rest, pop_spec(path)),
            ZddInstrView::Node(id) => below(zdd_paths(dd, ss, id), path) + zdd_pending(
                dd,
                ss,
                rest,
                path,
            ),
        },
        zdd_stack_cost(dd, rest.push(i)) == zdd_stack_cost(dd, rest) + zdd_instr_cost(dd, i),
{
    assert(rest.push(i).drop_last() =~= rest);
    assert(rest.push(i).last() == i);
}

/// Taking a node instruction apart into its two branches keeps what is
/// pending.
proof fn lemma_zdd_expand(
    dd: TableView<bool>,
    ss: Seq<bool>,
    rest: Seq<ZddInstrView>,
    path: PathView,
    lo: NodeId,
    hi: NodeId,
    x: Seq<char>,
)
    ensures
        zdd_pending(
            dd,
            ss,
            rest.push(ZddInstrView::Pop).push(ZddInstrView::Node(hi)).push(
                ZddInstrView::Push(x),
            ).push(ZddInstrView::Node(lo)),
            path,
        ) == below(zdd_paths(dd, ss, lo) + with_literal(zdd_paths(dd, ss, hi), x), path)
            + zdd_pending(dd, ss, rest, path),
        zdd_stack_cost(
            dd,
            rest.push(ZddInstrView::Pop).push(ZddInstrView::Node(hi)).push(
                ZddInstrView::Push(x),
            ).push(ZddInstrView::Node(lo)),
        ) == zdd_stack_cost(dd, rest) + zdd_node_cost(dd.rank(lo)) + zdd_node_cost(dd.rank(hi))
            + 2,
{
    let s1 = rest.push(ZddInstrView::Pop);
    let s2 = s1.push(ZddInstrView::Node(hi));
    let s3 = s2.push(ZddInstrView::Push(x));
    let plo = zdd_paths(dd, ss, lo);
    let phi = zdd_paths(dd, ss, hi);
    lemma_zdd_pending_push(dd, ss, s3, ZddInstrView::Node(lo), path);
    lemma_zdd_pending_push(dd, ss, s2, ZddInstrView::Push(x), path);
    lemma_zdd_pending_push(dd, ss, s1, ZddInstrView::Node(hi), path.push(x));
    lemma_zdd_pending_push(dd, ss, rest, ZddInstrView::Pop, path.push(x));
    assert(pop_spec(path.push(x)) =~= path);
    lemma_below_literal(phi, x, path);
    lemma_below_concat(plo, with_literal(phi, x), path);
    let tail = zdd_pending(dd, ss, rest, path);
    assert(below(plo, path) + (below(phi, path.push(x)) + tail) =~= (below(plo, path) + below(
        phi,
        path.push(x),
    )) + tail);
}

/// The enumeration hands out as many paths as `zdd_count` counts.
pub proof fn lemma_zdd_paths_len(dd: TableView<bool>, ss: Seq<bool>, id: NodeId)
    ensures
        zdd_paths(dd, ss, id).len() == zdd_count_spec(dd, ss, id),
    decreases dd.rank(id),
{
    if dd.valid(id) && dd.nodes[id as int] is NonTerminal {
        let children = dd.children(id);
        if children.len() == 2 && dd.rank(children[0]) < dd.rank(id) && dd.rank(children[1])
            < dd.rank(id) {
            lemma_zdd_paths_len(dd, ss, children[0]);
            lemma_zdd_paths_len(dd, ss, children[1]);
        }
    }
}

/// An iterator over the paths of a node of a ZDD: the paths from the
/// node to a terminal of the target set. Each path comes as the labels of
/// the variables of which it takes the high edge, the lowest first.
pub struct ZddPath {
    table: Ghost<TableView<bool>>,
    next_stack: Vec<ZddStackValue>,
    path: Vec<String>,
    node: NodeId,
    ss: Vec<bool>,
}

impl ZddPath {
    /// The diagram.
    pub closed spec fn table(&self) -> TableView<bool> {
        self.table@
    }

    /// The node whose paths are enumerated.
    pub closed spec fn root(&self) -> NodeId {
        self.node
    }

    /// The target set.
    pub closed spec fn targets(&self) -> Seq<bool> {
        self.ss@
    }

    /// The paths that are still to come, in their order.
    pub closed spec fn remaining(&self) -> Seq<PathView> {
        zdd_pending(self.table@, self.ss@, zdd_stack_view(self.next_stack@), strings_view(self.path@))
    }

    /// The iterator is in order: the diagram is a well formed binary
    /// diagram and the stack names nodes of it.
    pub closed spec fn wf(&self) -> bool {
        &&& self.table@.wf()
        &&& self.table@.binary()
        &&& self.table@.valid(self.node)
        &&& forall|j: int|
            0 <= j < self.next_stack@.len() ==> zdd_instr_ok(
                self.table@,
                #[trigger] self.next_stack@[j]@,
            )
    }

    /// Starts the enumeration at `node`. Fails with `MissingNode` for a
    /// node that the table does not hold.
    pub fn new(dd: &NodeTable<bool>, node: NodeId, ss: &[bool]) -> (r: Result<Self, Error>)
        requires
            dd@.wf(),
            dd@.binary(),
        ensures
            match r {
                Ok(it) => {
                    &&& it.wf()
                    &&& it.table() == dd@
                    &&& it.root() == node
                    &&& it.targets() == ss@
                    &&& dd@.valid(node)
                    &&& it.remaining() == zdd_paths(dd@, ss@, node)
                    &&& it.remaining().len() == zdd_count_spec(dd@, ss@, node)
                },
                Err(e) => !dd@.valid(node) && e == Error::MissingNode,
            },
    {
        if dd.get_node(node).is_none() {
            return Err(Error::MissingNode);
        }
        let mut targets: Vec<bool> = Vec::new();
        let mut i: usize = 0;
        while i < ss.len()
            invariant
                i <= ss.len(),
                targets@ =~= ss@.subrange(0, i as int),
            decreases ss.len() - i,
        {
            targets.push(ss[i]);
            i = i + 1;
        }
        assert(targets@ =~= ss@);
        let mut next_stack: Vec<ZddStackValue> = Vec::new();
        next_stack.push(ZddStackValue::Node(node));
        let it = ZddPath { table: Ghost(dd@), next_stack, path: Vec::new(), node, ss: targets };
        proof {
            let stack = zdd_stack_view(it.next_stack@);
            assert(stack =~= Seq::<ZddInstrView>::empty().push(ZddInstrView::Node(node)));
            lemma_zdd_pending_push(
                dd@,
                ss@,
                Seq::empty(),
                ZddInstrView::Node(node),
                strings_view(it.path@),
            );
            let paths = zdd_paths(dd@, ss@, node);
            assert(strings_view(it.path@) =~= Seq::<Seq<char>>::empty());
            lemma_below_nothing(paths);
            assert(paths + Seq::<PathView>::empty() =~= paths);
            lemma_zdd_paths_len(dd@, ss@, node);
        }
        Ok(it)
    }

    /// The number of paths that the enumeration starts with.
    pub fn len(&self, dd: &NodeTable<bool>) -> (r: u64)
        requires
            self.wf(),
            dd@ == self.table(),
            zdd_count_fits::<u64>(self.table(), self.targets(), self.root()),
        ensures
            r == zdd_count_spec(self.table(), self.targets(), self.root()),
    {
        let mut cache: HashMap<NodeId, u64> = HashMap::new();
        zdd_count(dd, self.ss.as_slice(), self.node, &mut cache)
    }

    /// Hands out the next path, or nothing when all are out.
    pub fn next(&mut self, dd: &NodeTable<bool>) -> (r: Option<Vec<String>>)
        requires
            old(self).wf(),
            dd@ == old(self).table(),
        ensures
            final(self).wf(),
            final(self).table() == old(self).table(),
            final(self).root() == old(self).root(),
            final(self).targets() == old(self).targets(),
            match r {
                Some(p) => old(self).remaining().len() > 0 && strings_view(p@) == old(
                    self,
                ).remaining()[0] && final(self).remaining() == old(self).remaining().drop_first(),
                None => old(self).remaining().len() == 0 && final(self).remaining().len() == 0,
            },
    {
        loop
            invariant
                self.wf(),
                self.table == old(self).table,
                dd@ == self.table@,
                self.node == old(self).node,
                self.ss == old(self).ss,
                self.remaining() == old(self).remaining(),
            decreases zdd_stack_cost(self.table@, zdd_stack_view(self.next_stack@)),
        {
            let ghost stack0 = zdd_stack_view(self.next_stack@);
            let ghost path0 = strings_view(self.path@);
            let ghost exec0 = self.next_stack@;
            let top = self.next_stack.pop();
            proof {
                if exec0.len() > 0 {
                    assert(zdd_stack_view(self.next_stack@) =~= stack0.drop_last());
                    assert(stack0.last() == exec0.last()@);
                    assert(zdd_instr_ok(self.table@, exec0[exec0.len() - 1]@));
                }
            }
            match top {
                None => {
                    return None;
                },
                Some(ZddStackValue::Push(x)) => {
                    self.path.push(x);
                    assert(strings_view(self.path@) =~= path0.push(x@));
                },
                Some(ZddStackValue::Pop) => {
                    self.path.pop();
                    assert(strings_view(self.path@) =~= pop_spec(path0));
                },
                Some(ZddStackValue::Node(nodeid)) => {
                    let ghost rest = stack0.drop_last();
                    let ghost tail = zdd_pending(self.table@, self.ss@, rest, path0);
                    let ghost paths = zdd_paths(self.table@, self.ss@, nodeid);
                    match dd.get_node(nodeid).unwrap() {
                        Node::Terminal(v) => {
                            if contains(self.ss.as_slice(), v) {
                                let result = reversed_strings(&self.path);
                                proof {
                                    assert(paths =~= seq![Seq::<Seq<char>>::empty()]);
                                    assert(below(paths, path0)[0] =~= path0.reverse());
                                    assert((below(paths, path0) + tail).drop_first() =~= tail);
                                }
                                return Some(result);
                            } else {
                                proof {
                                    assert(paths =~= Seq::<PathView>::empty());
                                    assert(below(paths, path0) + tail =~= tail);
                                }
                            }
                        },
                        Node::Undet => {
                            proof {
                                assert(paths =~= Seq::<PathView>::empty());
                                assert(below(paths, path0) + tail =~= tail);
                            }
                        },
                        Node::NonTerminal { header, children } => {
                            proof {
                                assert(self.table@.node_linked(nodeid));
                                assert(self.table@.node_descends(nodeid));
                                assert(self.table@.is_nonterminal(nodeid));
                                assert(self.table@.children(nodeid) == children@);
                                assert(self.table@.valid(children@[0]));
                                assert(self.table@.valid(children@[1]));
                                assert(self.table@.rank(children@[0]) < self.table@.rank(nodeid));
                                assert(self.table@.rank(children@[1]) < self.table@.rank(nodeid));
                            }
                            let lo = children[0];
                            let hi = children[1];
                            let x = dd.get_header(*header).unwrap().label().clone();
                            proof {
                                lemma_zdd_expand(self.table@, self.ss@, rest, path0, lo, hi, x@);
                                let r = self.table@.rank(nodeid);
                                lemma_zdd_node_cost_grows(self.table@.rank(lo), (r - 1) as nat);
                                lemma_zdd_node_cost_grows(self.table@.rank(hi), (r - 1) as nat);
                                assert(zdd_node_cost(r) == 2 * zdd_node_cost((r - 1) as nat) + 3);
                            }
                            self.next_stack.push(ZddStackValue::Pop);
                            self.next_stack.push(ZddStackValue::Node(hi));
                            self.next_stack.push(ZddStackValue::Push(x));
                            self.next_stack.push(ZddStackValue::Node(lo));
                            proof {
                                assert(zdd_stack_view(self.next_stack@) =~= rest.push(
                                    ZddInstrView::Pop,
                                ).push(ZddInstrView::Node(hi)).push(ZddInstrView::Push(x@)).push(
                                    ZddInstrView::Node(lo),
                                ));
                            }
                        },
                    }
                },
            }
        }
    }
}

/// An instruction names a node of the table.
pub open spec fn zdd_instr_ok(dd: TableView<bool>, i: ZddInstrView) -> bool {
    match i {
        ZddInstrView::Node(id) => dd.valid(id),
        _ => true,
    }
}

proof fn lemma_below_nothing(paths: Seq<PathView>)
    ensures
        below(paths, Seq::empty()) == paths,
{
    assert(Seq::<Seq<char>>::empty().reverse() =~= Seq::<Seq<char>>::empty());
    assert forall|j: int| 0 <= j < paths.len() implies below(paths, Seq::empty())[j]
        == paths[j] by {
        assert(paths[j] + Seq::<Seq<char>>::empty() =~= paths[j]);
    }
    assert(below(paths, Seq::empty()) =~= paths);
}

/// The literals of `p` assign the `k` lowest variables: one literal for
/// each level, the variable's label or its negation.
pub open spec fn is_assignment(dd: TableView<bool>, k: nat, p: PathView) -> bool {
    &&& p.len() == k
    &&& forall|l: int|
        0 <= l < k ==> #[trigger] p[l] == level_label(dd, l as nat) || p[l] == negated(
            level_label(dd, l as nat),
        )
}

/// The terminal value in which the diagram, entered at `id` with `k`
/// variables to go, ends under the assignment `p`: at a node that
/// decides on a variable the high child is taken where `p` holds the
/// variable's positive literal, the low child otherwise.
pub open spec fn eval(dd: TableView<bool>, id: NodeId, k: nat, p: PathView) -> Option<bool>
    decreases k,
{
    if !dd.valid(id) {
        None
    } else if k == 0 {
        match dd.nodes[id as int] {
            NodeView::Terminal(v) => Some(v),
            _ => None,
        }
    } else {
        let l = (k - 1) as nat;
        if descends(dd, k, id) {
            if p[l as int] == level_label(dd, l) {
                eval(dd, dd.children(id)[1], l, p)
            } else {
                eval(dd, dd.children(id)[0], l, p)
            }
        } else {
            eval(dd, id, l, p)
        }
    }
}

/// What the diagram ends in depends only on the literals of the
/// variables that are still to go.
proof fn lemma_eval_prefix(dd: TableView<bool>, id: NodeId, k: nat, p: PathView, q: PathView)
    requires
        p.len() >= k,
        q.len() >= k,
        forall|l: int| 0 <= l < k ==> p[l] == q[l],
    ensures
        eval(dd, id, k, p) == eval(dd, id, k, q),
    decreases k,
{
    if dd.valid(id) && k > 0 {
        let l = (k - 1) as nat;
        if descends(dd, k, id) {
            lemma_eval_prefix(dd, dd.children(id)[1], l, p, q);
            lemma_eval_prefix(dd, dd.children(id)[0], l, p, q);
        } else {
            lemma_eval_prefix(dd, id, l, p, q);
        }
    }
}

/// A label and its negation differ.
pub proof fn lemma_negated_differs(x: Seq<char>)
    ensures
        negated(x) != x,
{
    reveal_strlit("~");
    assert(negated(x).len() == x.len() + 1);
}

/// Each assignment that the enumeration hands out assigns every one of
/// the `k` variables, and under it the diagram ends in a terminal of the
/// target set.
pub proof fn lemma_bdd_paths_sound(dd: TableView<bool>, ss: Seq<bool>, k: nat, id: NodeId, j: int)
    requires
        0 <= j < bdd_paths(dd, ss, k, id).len(),
    ensures
        is_assignment(dd, k, bdd_paths(dd, ss, k, id)[j]),
        eval(dd, id, k, bdd_paths(dd, ss, k, id)[j]) is Some,
        ss.contains(eval(dd, id, k, bdd_paths(dd, ss, k, id)[j])->0),
    decreases k,
{
    let p = bdd_paths(dd, ss, k, id)[j];
    if k == 0 {
    } else {
        let l = (k - 1) as nat;
        let x = level_label(dd, l);
        let lo = if descends(dd, k, id) {
            dd.children(id)[0]
        } else {
            id
        };
        let hi = if descends(dd, k, id) {
            dd.children(id)[1]
        } else {
            id
        };
        let a = bdd_paths(dd, ss, l, lo);
        let b = bdd_paths(dd, ss, l, hi);
        lemma_negated_differs(x);
        if j < a.len() {
            lemma_bdd_paths_sound(dd, ss, l, lo, j);
            assert(p == a[j].push(negated(x)));
            lemma_eval_prefix(dd, lo, l, p, a[j]);
            assert(p[l as int] == negated(x));
        } else {
            let i = j - a.len();
            lemma_bdd_paths_sound(dd, ss, l, hi, i);
            assert(p == b[i].push(x));
            lemma_eval_prefix(dd, hi, l, p, b[i]);
            assert(p[l as int] == x);
        }
        assert forall|m: int| 0 <= m < k implies #[trigger] p[m] == level_label(dd, m as nat)
            || p[m] == negated(level_label(dd, m as nat)) by {
            if m < l {
                if j < a.len() {
                    assert(p[m] == a[j][m]);
                } else {
                    assert(p[m] == b[j - a.len()][m]);
                }
            }
        }
    }
}

/// No assignment is handed out twice.
pub proof fn lemma_bdd_paths_distinct(
    dd: TableView<bool>,
    ss: Seq<bool>,
    k: nat,
    id: NodeId,
    i: int,
    j: int,
)
    requires
        0 <= i < j < bdd_paths(dd, ss, k, id).len(),
    ensures
        bdd_paths(dd, ss, k, id)[i] != bdd_paths(dd, ss, k, id)[j],
    decreases k,
{
    if k == 0 {
    } else {
        let l = (k - 1) as nat;
        let x = level_label(dd, l);
        let lo = if descends(dd, k, id) {
            dd.children(id)[0]
        } else {
            id
        };
        let hi = if descends(dd, k, id) {
            dd.children(id)[1]
        } else {
            id
        };
        let a = bdd_paths(dd, ss, l, lo);
        let b = bdd_paths(dd, ss, l, hi);
        let all = bdd_paths(dd, ss, k, id);
        lemma_negated_differs(x);
        if j < a.len() {
            lemma_bdd_paths_distinct(dd, ss, l, lo, i, j);
            assert(all[i] == a[i].push(negated(x)) && all[j] == a[j].push(negated(x)));
            assert(all[i].drop_last() =~= a[i] && all[j].drop_last() =~= a[j]);
        } else if i >= a.len() {
            lemma_bdd_paths_distinct(dd, ss, l, hi, i - a.len(), j - a.len());
            assert(all[i] == b[i - a.len()].push(x) && all[j] == b[j - a.len()].push(x));
            assert(all[i].drop_last() =~= b[i - a.len()] && all[j].drop_last() =~= b[j
                - a.len()]);
        } else {
            assert(all[i] == a[i].push(negated(x)) && all[j] == b[j - a.len()].push(x));
            assert(all[i].last() == negated(x) && all[j].last() == x);
        }
    }
}

/// Every satisfying assignment is handed out: an assignment of the `k`
/// lowest variables under which the diagram ends in a terminal of the
/// target set is one of the assignments of the enumeration. The place at
/// which it comes is returned.
pub proof fn lemma_bdd_paths_complete(
    dd: TableView<bool>,
    ss: Seq<bool>,
    k: nat,
    id: NodeId,
    p: PathView,
) -> (j: int)
    requires
        is_assignment(dd, k, p),
        eval(dd, id, k, p) is Some,
        ss.contains(eval(dd, id, k, p)->0),
    ensures
        0 <= j < bdd_paths(dd, ss, k, id).len(),
        bdd_paths(dd, ss, k, id)[j] == p,
    decreases k,
{
    lemma_eval_defined(dd, id, k, p);
    if k == 0 {
        assert(p =~= Seq::<Seq<char>>::empty());
        0
    } else {
        let l = (k - 1) as nat;
        let x = level_label(dd, l);
        let lo = if descends(dd, k, id) {
            dd.children(id)[0]
        } else {
            id
        };
        let hi = if descends(dd, k, id) {
            dd.children(id)[1]
        } else {
            id
        };
        let a = bdd_paths(dd, ss, l, lo);
        let b = bdd_paths(dd, ss, l, hi);
        let q = p.drop_last();
        lemma_negated_differs(x);
        assert(is_assignment(dd, l, q)) by {
            assert forall|m: int| 0 <= m < l implies #[trigger] q[m] == level_label(dd, m as nat)
                || q[m] == negated(level_label(dd, m as nat)) by {
                assert(q[m] == p[m]);
            }
        }
        assert(p[l as int] == x || p[l as int] == negated(x));
        if p[l as int] == x {
            lemma_eval_prefix(dd, hi, l, p, q);
            let i = lemma_bdd_paths_complete(dd, ss, l, hi, q);
            assert(b[i].push(x) =~= p);
            a.len() + i
        } else {
            lemma_eval_prefix(dd, lo, l, p, q);
            let i = lemma_bdd_paths_complete(dd, ss, l, lo, q);
            assert(a[i].push(negated(x)) =~= p);
            i
        }
    }
}

/// Where the diagram ends in a terminal, the node it is entered at is in
/// the table and is not the undetermined terminal.
proof fn lemma_eval_defined(dd: TableView<bool>, id: NodeId, k: nat, p: PathView)
    requires
        eval(dd, id, k, p) is Some,
    ensures
        dd.valid(id),
        !(dd.nodes[id as int] is Undet),
    decreases k,
{
    if k > 0 && dd.valid(id) {
        if !descends(dd, k, id) {
            lemma_eval_defined(dd, id, (k - 1) as nat, p);
        }
    }
}

/// The paths from `node` to the terminal true: the sets that the
/// diagram holds when it is read as a ZDD.
pub fn bdd_path(dd: &NodeTable<bool>, node: NodeId) -> (r: Result<ZddPath, Error>)
    requires
        dd@.wf(),
        dd@.binary(),
    ensures
        match r {
            Ok(it) => {
                &&& it.wf()
                &&& it.table() == dd@
                &&& it.root() == node
                &&& it.targets() == seq![true]
                &&& dd@.valid(node)
                &&& it.remaining() == zdd_paths(dd@, seq![true], node)
                &&& it.remaining().len() == zdd_count_spec(dd@, seq![true], node)
            },
            Err(e) => !dd@.valid(node) && e == Error::MissingNode,
        },
{
    let mut ss: Vec<bool> = Vec::new();
    ss.push(true);
    assert(ss@ =~= seq![true]);
    ZddPath::new(dd, node, ss.as_slice())
}

} // verus!
