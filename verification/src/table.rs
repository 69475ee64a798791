use crate::common::{Error, HeaderId, Leaf, Level, NodeId};
use std::collections::HashMap;
use vstd::prelude::*;

verus! {

/// What a header holds, as a mathematical value.
pub struct HeaderView {
    pub label: Seq<char>,
    pub level: Level,
    pub edge_num: usize,
}

/// The variable that the nodes of one level decide on.
#[derive(Debug)]
pub struct NodeHeader {
    label: String,
    level: Level,
    edge_num: usize,
}

impl View for NodeHeader {
    type V = HeaderView;

    closed spec fn view(&self) -> HeaderView {
        HeaderView { label: self.label@, level: self.level, edge_num: self.edge_num }
    }
}

impl NodeHeader {
    pub fn new(level: Level, label: &str, edge_num: usize) -> (r: Self)
        ensures
            r@ == (HeaderView { label: label@, level: level, edge_num: edge_num }),
    {
        NodeHeader { label: label.to_owned(), level, edge_num }
    }

    pub fn level(&self) -> (r: Level)
        ensures
            r == self@.level,
    {
        self.level
    }

    pub fn label(&self) -> (r: &String)
        ensures
            r@ == self@.label,
    {
        &self.label
    }

    pub fn edge_num(&self) -> (r: usize)
        ensures
            r == self@.edge_num,
    {
        self.edge_num
    }
}

/// What a node holds, as a mathematical value.
pub enum NodeView<L> {
    Terminal(L),
    Undet,
    NonTerminal { header: HeaderId, children: Seq<NodeId> },
}

/// A node of a diagram: a terminal with its value, the undetermined
/// terminal, or a decision on one variable with one child per value.
#[derive(Debug)]
pub enum Node<L> {
    Terminal(L),
    Undet,
    NonTerminal { header: HeaderId, children: Vec<NodeId> },
}

impl<L> View for Node<L> {
    type V = NodeView<L>;

    open spec fn view(&self) -> NodeView<L> {
        match self {
            Node::Terminal(v) => NodeView::Terminal(*v),
            Node::Undet => NodeView::Undet,
            Node::NonTerminal { header, children } => NodeView::NonTerminal {
                header: *header,
                children: children@,
            },
        }
    }
}

/// A node table as a mathematical value: the headers and the nodes, each
/// found by its index.
pub struct TableView<L> {
    pub headers: Seq<HeaderView>,
    pub nodes: Seq<NodeView<L>>,
}

impl<L> TableView<L> {
    pub open spec fn valid(self, id: NodeId) -> bool {
        id < self.nodes.len()
    }

    pub open spec fn is_nonterminal(self, id: NodeId) -> bool {
        self.valid(id) && self.nodes[id as int] is NonTerminal
    }

    pub open spec fn header_id(self, id: NodeId) -> HeaderId
        recommends
            self.is_nonterminal(id),
    {
        self.nodes[id as int]->header
    }

    pub open spec fn children(self, id: NodeId) -> Seq<NodeId>
        recommends
            self.is_nonterminal(id),
    {
        self.nodes[id as int]->children
    }

    pub open spec fn header(self, id: NodeId) -> HeaderView
        recommends
            self.is_nonterminal(id),
    {
        self.headers[self.header_id(id) as int]
    }

    /// The level of a node: that of its header, none for a terminal.
    pub open spec fn level(self, id: NodeId) -> Option<Level> {
        if self.is_nonterminal(id) && self.header_id(id) < self.headers.len() {
            Some(self.header(id).level)
        } else {
            None
        }
    }

    /// How many variables stand at or below a node: its level plus one,
    /// zero for a terminal.
    pub open spec fn rank(self, id: NodeId) -> nat {
        match self.level(id) {
            Some(l) => (l + 1) as nat,
            None => 0,
        }
    }

    /// A non-terminal names a header of the table, has one child per value
    /// of its variable, and each child is in the table.
    pub open spec fn node_linked(self, id: NodeId) -> bool {
        self.is_nonterminal(id) ==> {
            &&& self.header_id(id) < self.headers.len()
            &&& self.children(id).len() == self.header(id).edge_num
            &&& forall|i: int|
                0 <= i < self.children(id).len() ==> self.valid(#[trigger] self.children(id)[i])
        }
    }

    /// Each child of a non-terminal stands strictly lower than the node.
    pub open spec fn node_descends(self, id: NodeId) -> bool {
        self.is_nonterminal(id) ==> forall|i: int|
            0 <= i < self.children(id).len() ==> self.rank(#[trigger] self.children(id)[i])
                < self.rank(id)
    }

    /// Each variable has at least two values, and no two share a level.
    pub open spec fn headers_ok(self) -> bool {
        &&& forall|h: int| 0 <= h < self.headers.len() ==> (#[trigger] self.headers[h]).edge_num >= 2
        &&& forall|h: int, k: int|
            0 <= h < self.headers.len() && 0 <= k < self.headers.len() && h != k
                ==> (#[trigger] self.headers[h]).level != (#[trigger] self.headers[k]).level
    }

    /// The table is an ordered diagram forest: node 0 is the undetermined
    /// terminal and every edge leads to a node of the table at a strictly
    /// lower level.
    pub open spec fn wf(self) -> bool {
        &&& self.nodes.len() >= 1
        &&& self.nodes[0] is Undet
        &&& self.headers_ok()
        &&& forall|id: NodeId| #[trigger] self.valid(id) ==> self.node_linked(id)
        &&& forall|id: NodeId| #[trigger] self.valid(id) ==> self.node_descends(id)
    }

    /// Every variable is binary.
    pub open spec fn binary(self) -> bool {
        forall|h: int| 0 <= h < self.headers.len() ==> (#[trigger] self.headers[h]).edge_num == 2
    }

    /// Some header stands at `level`.
    pub open spec fn has_level(self, level: Level) -> bool {
        exists|h: int| 0 <= h < self.headers.len() && (#[trigger] self.headers[h]).level == level
    }

    /// The header that stands at `level`.
    pub open spec fn header_at(self, level: Level) -> HeaderId
        recommends
            self.has_level(level),
    {
        choose|h: HeaderId| h < self.headers.len() && (#[trigger] self.headers[h as int]).level == level
    }

    /// A node that decides on `header` with exactly these children.
    pub open spec fn is_node(self, id: NodeId, header: HeaderId, children: Seq<NodeId>) -> bool {
        self.valid(id) && self.nodes[id as int] == (NodeView::<L>::NonTerminal { header, children })
    }

    /// `other` holds everything that `self` holds, at the same places.
    pub open spec fn extended_by(self, other: TableView<L>) -> bool {
        &&& self.headers == other.headers
        &&& self.nodes.len() <= other.nodes.len()
        &&& forall|id: int| 0 <= id < self.nodes.len() ==> self.nodes[id] == other.nodes[id]
    }
}

/// The nodes of the table are shared: no two of them are alike, so each
/// terminal value and each decision is held once.
#[verifier::opaque]
pub open spec fn hash_consed<L>(dd: TableView<L>) -> bool {
    forall|i: int, j: int|
        0 <= i < dd.nodes.len() && 0 <= j < dd.nodes.len() && i != j ==> #[trigger] dd.nodes[i]
            != #[trigger] dd.nodes[j]
}

/// In a table whose nodes are shared, two nodes that are alike are one.
pub proof fn lemma_shared_one<L>(dd: TableView<L>, i: NodeId, j: NodeId)
    requires
        hash_consed(dd),
        dd.valid(i),
        dd.valid(j),
        dd.nodes[i as int] == dd.nodes[j as int],
    ensures
        i == j,
{
    reveal(hash_consed);
}

/// A node that the table did not hold, put at its end, keeps the nodes
/// shared.
pub proof fn lemma_push_shared<L>(a: TableView<L>, b: TableView<L>, n: NodeView<L>)
    requires
        hash_consed(a),
        b.nodes == a.nodes.push(n),
        forall|id: int| 0 <= id < a.nodes.len() ==> a.nodes[id] != n,
    ensures
        hash_consed(b),
{
    reveal(hash_consed);
    assert forall|i: int, j: int|
        0 <= i < b.nodes.len() && 0 <= j < b.nodes.len() && i != j implies #[trigger] b.nodes[i]
        != #[trigger] b.nodes[j] by {
        if i < a.nodes.len() {
            assert(b.nodes[i] == a.nodes[i]);
        }
        if j < a.nodes.len() {
            assert(b.nodes[j] == a.nodes[j]);
        }
    }
}

pub open spec fn key_of(children: Seq<NodeId>) -> u128
    recommends
        children.len() >= 2,
{
    (children[0] as u128 * 0x1_0000_0000_0000_0000u128 + children[1] as u128) as u128
}

/// A store of headers and nodes. Node 0 is the undetermined terminal.
/// Non-terminal nodes made by [`NodeTable::create_node`] are shared: asking
/// twice for the same header and children gives the same node. A table
/// that grew by [`NodeTable::terminal`] and [`NodeTable::create_node`]
/// alone holds no node twice, as [`hash_consed`] says.
pub struct NodeTable<L> {
    headers: Vec<NodeHeader>,
    nodes: Vec<Node<L>>,
    index: HashMap<u128, Vec<NodeId>>,
}

impl<L> View for NodeTable<L> {
    type V = TableView<L>;

    closed spec fn view(&self) -> TableView<L> {
        TableView {
            headers: Seq::new(self.headers@.len(), |i: int| self.headers@[i]@),
            nodes: Seq::new(self.nodes@.len(), |i: int| self.nodes@[i]@),
        }
    }
}

impl<L: Leaf> NodeTable<L> {
    /// The index finds every non-terminal with two or more children under
    /// the key of its first two children, and holds nothing else.
    pub closed spec fn index_ok(&self) -> bool {
        &&& forall|k: u128, j: int|
            self.index@.contains_key(k) && 0 <= j < self.index@[k]@.len() ==> {
                let id = #[trigger] self.index@[k]@[j];
                &&& self@.is_nonterminal(id)
                &&& self@.children(id).len() >= 2
                &&& key_of(self@.children(id)) == k
            }
        &&& forall|id: NodeId|
            #[trigger] self@.is_nonterminal(id) && self@.children(id).len() >= 2 ==> {
                &&& self.index@.contains_key(key_of(self@.children(id)))
                &&& self.index@[key_of(self@.children(id))]@.contains(id)
            }
    }

    /// The table is well formed and its index is in order.
    pub open spec fn wf(&self) -> bool {
        self@.wf() && self.index_ok()
    }

    /// A table that holds the undetermined terminal and nothing else.
    pub fn new() -> (r: Self)
        ensures
            r@.headers.len() == 0,
            r@.nodes =~= seq![NodeView::Undet],
            r.wf(),
            hash_consed(r@),
    {
        let mut nodes: Vec<Node<L>> = Vec::new();
        nodes.push(Node::Undet);
        let r = NodeTable { headers: Vec::new(), nodes, index: HashMap::new() };
        assert(r@.nodes =~= seq![NodeView::Undet]);
        proof {
            reveal(hash_consed);
        }
        r
    }

    /// The number of headers and the number of nodes.
    pub fn size(&self) -> (r: (usize, usize))
        ensures
            r.0 == self@.headers.len(),
            r.1 == self@.nodes.len(),
    {
        (self.headers.len(), self.nodes.len())
    }

    pub fn get_node(&self, id: NodeId) -> (r: Option<&Node<L>>)
        ensures
            match r {
                Some(n) => self@.valid(id) && n@ == self@.nodes[id as int],
                None => !self@.valid(id),
            },
    {
        if id < self.nodes.len() {
            Some(&self.nodes[id])
        } else {
            None
        }
    }

    pub fn get_header(&self, hid: HeaderId) -> (r: Option<&NodeHeader>)
        ensures
            match r {
                Some(h) => hid < self@.headers.len() && h@ == self@.headers[hid as int],
                None => hid >= self@.headers.len(),
            },
    {
        if hid < self.headers.len() {
            Some(&self.headers[hid])
        } else {
            None
        }
    }

    /// The level of a node: none for a terminal, and none for an id or a
    /// header that the table does not hold.
    pub fn level(&self, id: NodeId) -> (r: Option<Level>)
        ensures
            r == self@.level(id),
    {
        if id < self.nodes.len() {
            match &self.nodes[id] {
                Node::NonTerminal { header, children } => {
                    if *header < self.headers.len() {
                        Some(self.headers[*header].level)
                    } else {
                        None
                    }
                },
                _ => None,
            }
        } else {
            None
        }
    }

    /// The label of the variable that a non-terminal decides on.
    pub fn label(&self, id: NodeId) -> (r: Option<&String>)
        ensures
            match r {
                Some(s) => self@.level(id) is Some && s@ == self@.header(id).label,
                None => self@.level(id) is None,
            },
    {
        if id < self.nodes.len() {
            match &self.nodes[id] {
                Node::NonTerminal { header, children } => {
                    if *header < self.headers.len() {
                        Some(&self.headers[*header].label)
                    } else {
                        None
                    }
                },
                _ => None,
            }
        } else {
            None
        }
    }

    /// The undetermined terminal.
    pub fn undet(&self) -> (r: NodeId)
        ensures
            r == 0,
    {
        0
    }

    /// The header that stands at `level`, if there is one.
    pub fn find_level(&self, level: Level) -> (r: Option<HeaderId>)
        ensures
            match r {
                Some(h) => h < self@.headers.len() && self@.headers[h as int].level == level,
                None => !self@.has_level(level),
            },
    {
        let mut h: usize = 0;
        while h < self.headers.len()
            invariant
                h <= self.headers.len(),
                forall|k: int| 0 <= k < h ==> (#[trigger] self@.headers[k]).level != level,
            decreases self.headers.len() - h,
        {
            if self.headers[h].level == level {
                return Some(h);
            }
            h = h + 1;
        }
        None
    }

    /// Adds a header and returns its id. The table stays well formed where
    /// the variable has two or more values and the level is new.
    pub fn create_header(&mut self, level: Level, label: &str, edge_num: usize) -> (r: HeaderId)
        ensures
            r == old(self)@.headers.len(),
            final(self)@.nodes == old(self)@.nodes,
            hash_consed(old(self)@) ==> hash_consed(final(self)@),
            final(self)@.headers == old(self)@.headers.push(
                HeaderView { label: label@, level: level, edge_num: edge_num },
            ),
            old(self).index_ok() ==> final(self).index_ok(),
            old(self).wf() && edge_num >= 2 && !old(self)@.has_level(level) ==> final(self).wf(),
    {
        let r = self.headers.len();
        self.headers.push(NodeHeader::new(level, label, edge_num));
        proof {
            let a = old(self)@;
            let b = self@;
            assert(b.nodes =~= a.nodes);
            reveal(hash_consed);
            assert(b.headers =~= a.headers.push(
                HeaderView { label: label@, level: level, edge_num: edge_num },
            ));
            assert(self.index@ == old(self).index@);
            if old(self).index_ok() {
                assert forall|id: NodeId| a.is_nonterminal(id) == b.is_nonterminal(id) by {}
                assert forall|id: NodeId| a.children(id) == b.children(id) by {}
                assert(self.index_ok());
            }
            if old(self).wf() && edge_num >= 2 && !a.has_level(level) {
                assert forall|h: int| 0 <= h < a.headers.len() implies b.headers[h]
                    == a.headers[h] by {}
                assert forall|h: int| 0 <= h < a.headers.len() implies (#[trigger] a.headers[h]).level
                    != level by {}
                assert(b.headers_ok());
                assert forall|id: NodeId| #[trigger] b.valid(id) implies b.node_linked(id)
                    && b.node_descends(id) by {
                    assert(a.valid(id));
                    assert(a.node_linked(id));
                    assert(a.node_descends(id));
                    if b.is_nonterminal(id) {
                        assert forall|i: int| 0 <= i < b.children(id).len() implies b.rank(
                            #[trigger] b.children(id)[i],
                        ) < b.rank(id) by {
                            let c = a.children(id)[i];
                            assert(a.valid(c));
                            assert(a.node_linked(c));
                            assert(a.rank(c) < a.rank(id));
                        }
                    }
                }
            }
        }
        r
    }

    /// The index is sound, and finds every node below `n`.
    closed spec fn index_upto(&self, n: int) -> bool {
        &&& forall|k: u128, j: int|
            self.index@.contains_key(k) && 0 <= j < self.index@[k]@.len() ==> {
                let id = #[trigger] self.index@[k]@[j];
                &&& self@.is_nonterminal(id)
                &&& self@.children(id).len() >= 2
                &&& key_of(self@.children(id)) == k
            }
        &&& forall|id: NodeId|
            id < n && #[trigger] self@.is_nonterminal(id) && self@.children(id).len() >= 2 ==> {
                &&& self.index@.contains_key(key_of(self@.children(id)))
                &&& self.index@[key_of(self@.children(id))]@.contains(id)
            }
    }

    /// Enters node `id` into the index.
    fn register(&mut self, id: NodeId, c0: NodeId, c1: NodeId)
        requires
            old(self).index_upto(id as int),
            old(self)@.is_nonterminal(id),
            old(self)@.children(id).len() >= 2,
            old(self)@.children(id)[0] == c0,
            old(self)@.children(id)[1] == c1,
        ensures
            final(self)@ == old(self)@,
            final(self).index_upto(id + 1),
    {
        broadcast use vstd::std_specs::hash::group_hash_axioms;

        let k: u128 = (c0 as u128) * 0x1_0000_0000_0000_0000u128 + (c1 as u128);
        assert(k == key_of(self@.children(id)));
        let mut list: Vec<NodeId> = match self.index.remove(&k) {
            Some(l) => l,
            None => Vec::new(),
        };
        let ghost before = list@;
        list.push(id);
        self.index.insert(k, list);
        proof {
            assert(self@ == old(self)@);
            let m0 = old(self).index@;
            let m1 = self.index@;
            assert(m1 == m0.remove(k).insert(k, list));
            assert(m0.contains_key(k) ==> before == m0[k]@);
            assert forall|k2: u128, j: int|
                m1.contains_key(k2) && 0 <= j < m1[k2]@.len() implies {
                let x = #[trigger] m1[k2]@[j];
                &&& self@.is_nonterminal(x)
                &&& self@.children(x).len() >= 2
                &&& key_of(self@.children(x)) == k2
            } by {
                if k2 == k {
                    if j < before.len() {
                        assert(m0.contains_key(k));
                        assert(m0[k]@[j] == m1[k2]@[j]);
                    }
                } else {
                    assert(m0.contains_key(k2));
                    assert(m0[k2] == m1[k2]);
                }
            }
            assert forall|x: NodeId|
                x < id + 1 && #[trigger] self@.is_nonterminal(x) && self@.children(x).len()
                    >= 2 implies {
                &&& m1.contains_key(key_of(self@.children(x)))
                &&& m1[key_of(self@.children(x))]@.contains(x)
            } by {
                let kx = key_of(self@.children(x));
                if x == id {
                    assert(m1[k]@[before.len() as int] == id);
                } else {
                    assert(old(self)@.is_nonterminal(x));
                    assert(m0.contains_key(kx));
                    let j = choose|j: int| 0 <= j < m0[kx]@.len() && m0[kx]@[j] == x;
                    if kx == k {
                        assert(m1[k]@[j] == x);
                    } else {
                        assert(m1[kx] == m0[kx]);
                    }
                }
            }
        }
    }

    /// A table with the given headers and nodes, taken as they are: what
    /// comes back need not be well formed. [`NodeTable::validate`] tells.
    pub fn from_tables(headers: Vec<NodeHeader>, nodes: Vec<Node<L>>) -> (r: Self)
        ensures
            r@.headers =~= Seq::new(headers@.len(), |i: int| headers@[i]@),
            r@.nodes =~= Seq::new(nodes@.len(), |i: int| nodes@[i]@),
            r.index_ok(),
    {
        let mut r = NodeTable { headers, nodes, index: HashMap::new() };
        let ghost v = r@;
        let n = r.nodes.len();
        let mut id: usize = 0;
        while id < n
            invariant
                id <= n,
                n == r@.nodes.len(),
                r@ == v,
                r.index_upto(id as int),
            decreases n - id,
        {
            let mut pair: Option<(NodeId, NodeId)> = None;
            match &r.nodes[id] {
                Node::NonTerminal { header, children } => {
                    if children.len() >= 2 {
                        pair = Some((children[0], children[1]));
                    }
                },
                _ => {},
            }
            match pair {
                Some((c0, c1)) => {
                    r.register(id, c0, c1);
                },
                None => {
                    assert(r.index_upto(id + 1));
                },
            }
            id = id + 1;
        }
        r
    }

    /// Whether `children` are all one node.
    fn all_equal(children: &[NodeId]) -> (b: bool)
        requires
            children@.len() >= 1,
        ensures
            b == all_same(children@),
    {
        let mut i: usize = 1;
        while i < children.len()
            invariant
                1 <= i <= children.len(),
                forall|j: int| 0 <= j < i ==> #[trigger] children@[j] == children@[0],
            decreases children.len() - i,
        {
            if children[i] != children[0] {
                return false;
            }
            i = i + 1;
        }
        true
    }

    /// Whether node `id` decides on `h` with exactly `children`.
    fn matches(&self, id: NodeId, h: HeaderId, children: &[NodeId]) -> (b: bool)
        requires
            self@.valid(id),
        ensures
            b == self@.is_node(id, h, children@),
    {
        match &self.nodes[id] {
            Node::NonTerminal { header, children: own } => {
                if *header != h || own.len() != children.len() {
                    assert(self@.nodes[id as int]->children.len() == own@.len());
                    return false;
                }
                let mut i: usize = 0;
                while i < own.len()
                    invariant
                        i <= own.len(),
                        own.len() == children.len(),
                        self@.valid(id),
                        self@.nodes[id as int] == (NodeView::<L>::NonTerminal {
                            header: h,
                            children: own@,
                        }),
                        forall|j: int| 0 <= j < i ==> #[trigger] own@[j] == children@[j],
                    decreases own.len() - i,
                {
                    if own[i] != children[i] {
                        return false;
                    }
                    i = i + 1;
                }
                assert(own@ =~= children@);
                true
            },
            _ => false,
        }
    }

    /// A node among `list` that decides on `h` with exactly `children`.
    fn search(&self, list: &Vec<NodeId>, h: HeaderId, children: &[NodeId]) -> (r: Option<NodeId>)
        requires
            forall|j: int| 0 <= j < list@.len() ==> self@.valid(#[trigger] list@[j]),
        ensures
            match r {
                Some(id) => self@.is_node(id, h, children@),
                None => forall|j: int|
                    0 <= j < list@.len() ==> !self@.is_node(#[trigger] list@[j], h, children@),
            },
    {
        let mut j: usize = 0;
        while j < list.len()
            invariant
                j <= list.len(),
                forall|i: int| 0 <= i < list@.len() ==> self@.valid(#[trigger] list@[i]),
                forall|i: int| 0 <= i < j ==> !self@.is_node(#[trigger] list@[i], h, children@),
            decreases list.len() - j,
        {
            if self.matches(list[j], h, children) {
                return Some(list[j]);
            }
            j = j + 1;
        }
        None
    }

    /// The node that decides on `h` with the given children, one per
    /// value. Where all children are one node, that node is the result:
    /// a decision that makes no difference is not stored. Otherwise the
    /// node is looked up, and made only if the table does not hold it yet.
    pub fn create_node(&mut self, h: HeaderId, children: &[NodeId]) -> (r: NodeId)
        requires
            old(self).wf(),
            h < old(self)@.headers.len(),
            children@.len() == old(self)@.headers[h as int].edge_num,
            forall|i: int|
                0 <= i < children@.len() ==> old(self)@.valid(#[trigger] children@[i])
                    && old(self)@.rank(children@[i]) <= old(self)@.headers[h as int].level,
        ensures
            final(self).wf(),
            old(self)@.extended_by(final(self)@),
            final(self)@.valid(r),
            all_same(children@) ==> r == children@[0] && final(self)@ == old(self)@,
            !all_same(children@) ==> final(self)@.is_node(r, h, children@),
            (exists|id: NodeId| old(self)@.is_node(id, h, children@)) ==> final(self)@ == old(
                self,
            )@,
            final(self)@ != old(self)@ ==> r == old(self)@.nodes.len() && final(self)@.nodes
                == old(self)@.nodes.push(NodeView::NonTerminal { header: h, children: children@ }),
            hash_consed(old(self)@) ==> hash_consed(final(self)@),
    {
        assert(old(self)@.headers[h as int].edge_num >= 2);
        if Self::all_equal(children) {
            return children[0];
        }
        let c0 = children[0];
        let c1 = children[1];
        let k: u128 = (c0 as u128) * 0x1_0000_0000_0000_0000u128 + (c1 as u128);
        assert(k == key_of(children@));
        proof {
            broadcast use vstd::std_specs::hash::group_hash_axioms;

        }
        let found = match self.index.get(&k) {
            Some(list) => self.search(list, h, children),
            None => None,
        };
        match found {
            Some(id) => {
                return id;
            },
            None => {},
        }
        proof {
            assert forall|id: NodeId| !self@.is_node(id, h, children@) by {
                if self@.is_node(id, h, children@) {
                    assert(self@.is_nonterminal(id));
                    assert(self@.children(id) == children@);
                    assert(self.index@.contains_key(k));
                    let j = choose|j: int|
                        0 <= j < self.index@[k]@.len() && self.index@[k]@[j] == id;
                    assert(!self@.is_node(self.index@[k]@[j], h, children@));
                }
            }
        }
        let id = self.nodes.len();
        let mut own: Vec<NodeId> = Vec::new();
        let mut i: usize = 0;
        while i < children.len()
            invariant
                i <= children.len(),
                own@ =~= children@.subrange(0, i as int),
            decreases children.len() - i,
        {
            own.push(children[i]);
            i = i + 1;
        }
        assert(own@ =~= children@);
        self.nodes.push(Node::NonTerminal { header: h, children: own });
        proof {
            let a = old(self)@;
            let b = self@;
            let node = NodeView::<L>::NonTerminal { header: h, children: children@ };
            assert(b.headers =~= a.headers);
            assert(b.nodes =~= a.nodes.push(node));
            lemma_push_node_wf(a, b, h, children@);
            if hash_consed(a) {
                assert forall|x: int| 0 <= x < a.nodes.len() implies a.nodes[x] != node by {
                    assert(!a.is_node(x as NodeId, h, children@));
                }
                lemma_push_shared(a, b, node);
            }
            assert(self.index@ == old(self).index@);
            assert forall|x: NodeId| x < id implies a.is_nonterminal(x) == b.is_nonterminal(x)
                && a.nodes[x as int] == b.nodes[x as int] by {}
            assert(self.index_upto(id as int)) by {
                assert forall|k2: u128, j: int|
                    self.index@.contains_key(k2) && 0 <= j < self.index@[k2]@.len() implies {
                    let x = #[trigger] self.index@[k2]@[j];
                    &&& b.is_nonterminal(x)
                    &&& b.children(x).len() >= 2
                    &&& key_of(b.children(x)) == k2
                } by {
                    let x = self.index@[k2]@[j];
                    assert(a.is_nonterminal(x));
                }
            }
        }
        self.register(id, c0, c1);
        id
    }

    /// The terminal that holds `v`: the one in the table, or a new one.
    pub fn terminal(&mut self, v: L) -> (r: NodeId)
        requires
            old(self).wf(),
        ensures
            final(self).wf(),
            old(self)@.extended_by(final(self)@),
            final(self)@.valid(r),
            final(self)@.nodes[r as int] == NodeView::Terminal(v),
            (exists|id: NodeId| old(self)@.valid(id) && old(self)@.nodes[id as int]
                == NodeView::Terminal(v)) ==> final(self)@ == old(self)@,
            final(self)@ != old(self)@ ==> r == old(self)@.nodes.len() && final(self)@.nodes
                == old(self)@.nodes.push(NodeView::Terminal(v)),
            hash_consed(old(self)@) ==> hash_consed(final(self)@),
    {
        let mut i: usize = 0;
        while i < self.nodes.len()
            invariant
                i <= self.nodes.len(),
                self == old(self),
                old(self).wf(),
                forall|j: int| 0 <= j < i ==> self@.nodes[j] != NodeView::Terminal(v),
            decreases self.nodes.len() - i,
        {
            let hit = match &self.nodes[i] {
                Node::Terminal(w) => w.same(&v),
                _ => false,
            };
            if hit {
                return i;
            }
            i = i + 1;
        }
        let id = self.nodes.len();
        self.nodes.push(Node::Terminal(v));
        proof {
            let a = old(self)@;
            let b = self@;
            assert(b.headers =~= a.headers);
            assert(b.nodes =~= a.nodes.push(NodeView::Terminal(v)));
            lemma_push_leaf_wf(a, b);
            if hash_consed(a) {
                lemma_push_shared(a, b, NodeView::Terminal(v));
            }
            assert(self.index@ == old(self).index@);
            assert forall|x: NodeId| x < id implies a.is_nonterminal(x) == b.is_nonterminal(x)
                && a.nodes[x as int] == b.nodes[x as int] by {}
            assert(self.index_ok()) by {
                assert forall|k2: u128, j: int|
                    self.index@.contains_key(k2) && 0 <= j < self.index@[k2]@.len() implies {
                    let x = #[trigger] self.index@[k2]@[j];
                    &&& b.is_nonterminal(x)
                    &&& b.children(x).len() >= 2
                    &&& key_of(b.children(x)) == k2
                } by {
                    let x = self.index@[k2]@[j];
                    assert(a.is_nonterminal(x));
                }
                assert forall|x: NodeId|
                    #[trigger] b.is_nonterminal(x) && b.children(x).len() >= 2 implies {
                    &&& self.index@.contains_key(key_of(b.children(x)))
                    &&& self.index@[key_of(b.children(x))]@.contains(x)
                } by {
                    assert(x < id);
                    assert(a.is_nonterminal(x));
                }
            }
        }
        id
    }
}

impl<L> TableView<L> {
    /// The table holds the undetermined terminal at place 0, and its
    /// headers are in order.
    pub open spec fn form_ok(self) -> bool {
        self.nodes.len() >= 1 && self.nodes[0] is Undet && self.headers_ok()
    }

    /// `id` is the first node that is not linked as it should be.
    pub open spec fn first_unlinked(self, id: NodeId) -> bool {
        &&& self.valid(id)
        &&& !self.node_linked(id)
        &&& forall|x: NodeId| x < id ==> #[trigger] self.node_linked(x)
    }

    /// What is wrong with a table that is not well formed. Where the form
    /// is broken, `InvalidDiagram`. Else, for the first node that is not
    /// linked as it should be: `MissingHeader` where it names a header
    /// that the table does not hold, `InvalidDiagram` where it has not one
    /// child for each value of its variable, `MissingNode` where a child
    /// is not in the table. Else `CyclicDiagram`: an edge does not
    /// descend.
    pub open spec fn fault(self) -> Error {
        if !self.form_ok() {
            Error::InvalidDiagram
        } else if exists|id: NodeId| self.first_unlinked(id) {
            let id = choose|id: NodeId| self.first_unlinked(id);
            if self.header_id(id) >= self.headers.len() {
                Error::MissingHeader
            } else if self.children(id).len() != self.header(id).edge_num {
                Error::InvalidDiagram
            } else {
                Error::MissingNode
            }
        } else {
            Error::CyclicDiagram
        }
    }

    /// There is one first node that is not linked, if there is any.
    pub proof fn lemma_first_unlinked(self, id: NodeId)
        requires
            self.first_unlinked(id),
        ensures
            (choose|x: NodeId| self.first_unlinked(x)) == id,
    {
        let x = choose|x: NodeId| self.first_unlinked(x);
        if x < id {
            assert(self.node_linked(x));
        }
        if id < x {
            assert(self.node_linked(id));
        }
    }

    /// Some non-terminal names a header that the table does not hold.
    pub open spec fn lacks_header(self) -> bool {
        exists|id: NodeId| #[trigger]
            self.is_nonterminal(id) && self.header_id(id) >= self.headers.len()
    }

    /// Some non-terminal has a child that the table does not hold.
    pub open spec fn lacks_node(self) -> bool {
        exists|id: NodeId, i: int|
            self.is_nonterminal(id) && 0 <= i < self.children(id).len() && !self.valid(
                #[trigger] self.children(id)[i],
            )
    }

    /// Some edge leads to a node that does not stand strictly lower.
    pub open spec fn has_rising_edge(self) -> bool {
        exists|id: NodeId, i: int|
            self.is_nonterminal(id) && 0 <= i < self.children(id).len() && self.rank(
                #[trigger] self.children(id)[i],
            ) >= self.rank(id)
    }
}

impl<L: Leaf> NodeTable<L> {
    /// Whether the headers are in order: two values or more each, and no
    /// level twice.
    fn headers_in_order(&self) -> (b: bool)
        ensures
            b == self@.headers_ok(),
    {
        let n = self.headers.len();
        let mut h: usize = 0;
        while h < n
            invariant
                h <= n,
                n == self@.headers.len(),
                forall|a: int| 0 <= a < h ==> (#[trigger] self@.headers[a]).edge_num >= 2,
                forall|a: int, b: int|
                    0 <= a < h && 0 <= b < a ==> (#[trigger] self@.headers[a]).level != (
                    #[trigger] self@.headers[b]).level,
            decreases n - h,
        {
            if self.headers[h].edge_num < 2 {
                assert(self@.headers[h as int].edge_num < 2);
                return false;
            }
            let mut k: usize = 0;
            while k < h
                invariant
                    k <= h,
                    h < n,
                    n == self@.headers.len(),
                    forall|b: int|
                        0 <= b < k ==> self@.headers[h as int].level != (
                        #[trigger] self@.headers[b]).level,
                decreases h - k,
            {
                if self.headers[k].level == self.headers[h].level {
                    assert(self@.headers[k as int].level == self@.headers[h as int].level);
                    return false;
                }
                k = k + 1;
            }
            h = h + 1;
        }
        assert forall|a: int, b: int|
            0 <= a < self@.headers.len() && 0 <= b < self@.headers.len() && a != b implies (
        #[trigger] self@.headers[a]).level != (#[trigger] self@.headers[b]).level by {
            if a < b {
                assert(self@.headers[b].level != self@.headers[a].level);
            }
        }
        true
    }

    /// Tells whether the table is well formed, and if not, what is wrong
    /// with it, as [`TableView::fault`] says.
    pub fn validate(&self) -> (r: Result<(), Error>)
        ensures
            r is Ok <==> self@.wf(),
            r is Err ==> r == Err::<(), Error>(self@.fault()),
            r == Err::<(), Error>(Error::MissingHeader) ==> self@.lacks_header(),
            r == Err::<(), Error>(Error::MissingNode) ==> self@.lacks_node(),
            r == Err::<(), Error>(Error::CyclicDiagram) ==> self@.has_rising_edge(),
    {
        let n = self.nodes.len();
        if n == 0 {
            return Err(Error::InvalidDiagram);
        }
        match &self.nodes[0] {
            Node::Undet => {},
            _ => {
                return Err(Error::InvalidDiagram);
            },
        }
        if !self.headers_in_order() {
            return Err(Error::InvalidDiagram);
        }
        let mut id: usize = 0;
        while id < n
            invariant
                id <= n,
                n == self@.nodes.len(),
                self@.form_ok(),
                forall|x: NodeId| x < id ==> #[trigger] self@.node_linked(x),
            decreases n - id,
        {
            match &self.nodes[id] {
                Node::NonTerminal { header, children } => {
                    if *header >= self.headers.len() {
                        assert(self@.is_nonterminal(id));
                        assert(!self@.node_linked(id));
                        assert(self@.valid(id));
                        proof {
                            assert(self@.first_unlinked(id));
                            self@.lemma_first_unlinked(id);
                        }
                        return Err(Error::MissingHeader);
                    }
                    if children.len() != self.headers[*header].edge_num {
                        assert(!self@.node_linked(id));
                        assert(self@.valid(id));
                        proof {
                            assert(self@.first_unlinked(id));
                            self@.lemma_first_unlinked(id);
                        }
                        return Err(Error::InvalidDiagram);
                    }
                    let mut i: usize = 0;
                    while i < children.len()
                        invariant
                            i <= children.len(),
                            id < n,
                            n == self@.nodes.len(),
                            self@.form_ok(),
                            forall|x: NodeId| x < id ==> #[trigger] self@.node_linked(x),
                            self@.is_nonterminal(id),
                            self@.children(id) == children@,
                            self@.header_id(id) < self@.headers.len(),
                            self@.children(id).len() == self@.header(id).edge_num,
                            forall|j: int| 0 <= j < i ==> self@.valid(#[trigger] children@[j]),
                        decreases children.len() - i,
                    {
                        if children[i] >= n {
                            assert(!self@.valid(self@.children(id)[i as int]));
                            assert(!self@.node_linked(id));
                            assert(self@.valid(id));
                            proof {
                                assert(self@.first_unlinked(id));
                                self@.lemma_first_unlinked(id);
                            }
                            return Err(Error::MissingNode);
                        }
                        i = i + 1;
                    }
                },
                _ => {},
            }
            id = id + 1;
        }
        let mut id: usize = 0;
        while id < n
            invariant
                id <= n,
                n == self@.nodes.len(),
                self@.form_ok(),
                forall|x: NodeId| x < n ==> #[trigger] self@.node_linked(x),
                forall|x: NodeId| x < id ==> #[trigger] self@.node_descends(x),
            decreases n - id,
        {
            match &self.nodes[id] {
                Node::NonTerminal { header, children } => {
                    assert(self@.node_linked(id));
                    let own = self.headers[*header].level;
                    let mut i: usize = 0;
                    while i < children.len()
                        invariant
                            i <= children.len(),
                            id < n,
                            n == self@.nodes.len(),
                            self@.is_nonterminal(id),
                            self@.children(id) == children@,
                            self@.rank(id) == own + 1,
                            self@.form_ok(),
                            forall|x: NodeId| x < n ==> #[trigger] self@.node_linked(x),
                            forall|j: int|
                                0 <= j < children@.len() ==> self@.valid(#[trigger] children@[j]),
                            forall|j: int|
                                0 <= j < i ==> self@.rank(#[trigger] children@[j]) < self@.rank(id),
                        decreases children.len() - i,
                    {
                        assert(self@.valid(children@[i as int]));
                        let below = match self.level(children[i]) {
                            Some(l) => l < own,
                            None => true,
                        };
                        if !below {
                            assert(self@.rank(self@.children(id)[i as int]) >= self@.rank(id));
                            assert(!self@.node_descends(id));
                            assert(self@.valid(id));
                            assert(!exists|x: NodeId| self@.first_unlinked(x));
                            return Err(Error::CyclicDiagram);
                        }
                        i = i + 1;
                    }
                },
                _ => {},
            }
            id = id + 1;
        }
        Ok(())
    }
}

impl<L> TableView<L> {
    /// No undetermined node can be reached from `id`.
    pub open spec fn undet_free(self, id: NodeId) -> bool
        decreases self.rank(id),
    {
        if !self.valid(id) {
            false
        } else {
            match self.nodes[id as int] {
                NodeView::Terminal(_) => true,
                NodeView::Undet => false,
                NodeView::NonTerminal { header, children } => forall|i: int|
                    0 <= i < children.len() ==> self.rank(#[trigger] children[i]) < self.rank(id)
                        && self.undet_free(children[i]),
            }
        }
    }
}

impl TableView<bool> {
    /// Nodes 1 and 2 are the terminals false and true.
    pub open spec fn has_constants(self) -> bool {
        &&& self.nodes.len() >= 3
        &&& self.nodes[1] == NodeView::Terminal(false)
        &&& self.nodes[2] == NodeView::Terminal(true)
    }
}

impl NodeTable<bool> {
    /// A table for diagrams with Boolean terminals: it holds the
    /// undetermined terminal, false and true, in this order.
    pub fn new_boolean() -> (r: Self)
        ensures
            r@.headers.len() == 0,
            r@.nodes =~= seq![
                NodeView::Undet,
                NodeView::Terminal(false),
                NodeView::Terminal(true),
            ],
            r@.has_constants(),
            r.wf(),
            hash_consed(r@),
    {
        let mut r = Self::new();
        let z = r.terminal(false);
        let o = r.terminal(true);
        r
    }

    /// The terminal false.
    pub fn zero(&self) -> (r: NodeId)
        ensures
            r == 1,
    {
        1
    }

    /// The terminal true.
    pub fn one(&self) -> (r: NodeId)
        ensures
            r == 2,
    {
        2
    }
}

/// All of `children` are one node.
pub open spec fn all_same(children: Seq<NodeId>) -> bool {
    forall|i: int| 0 <= i < children.len() ==> #[trigger] children[i] == children[0]
}

/// Levels, ranks and links of the nodes of `a` are the same in a table
/// that extends it.
pub proof fn lemma_extended<L>(a: TableView<L>, b: TableView<L>)
    requires
        a.extended_by(b),
    ensures
        forall|id: NodeId| #[trigger]
            a.valid(id) ==> b.valid(id) && a.level(id) == b.level(id) && a.rank(id) == b.rank(id)
                && a.is_nonterminal(id) == b.is_nonterminal(id) && a.nodes[id as int]
                == b.nodes[id as int],
{
}

proof fn lemma_push_leaf_wf<L>(a: TableView<L>, b: TableView<L>)
    requires
        a.wf(),
        a.headers == b.headers,
        b.nodes.len() == a.nodes.len() + 1,
        forall|id: int| 0 <= id < a.nodes.len() ==> a.nodes[id] == b.nodes[id],
        !(b.nodes[a.nodes.len() as int] is NonTerminal),
    ensures
        b.wf(),
        a.extended_by(b),
{
    lemma_extended(a, b);
    assert forall|id: NodeId| #[trigger] b.valid(id) implies b.node_linked(id) && b.node_descends(
        id,
    ) by {
        if id < a.nodes.len() {
            assert(a.valid(id));
            assert(a.node_linked(id));
            assert(a.node_descends(id));
            if b.is_nonterminal(id) {
                assert forall|i: int| 0 <= i < b.children(id).len() implies b.valid(
                    #[trigger] b.children(id)[i],
                ) && b.rank(b.children(id)[i]) < b.rank(id) by {
                    let c = a.children(id)[i];
                    assert(a.valid(c));
                    assert(a.rank(c) < a.rank(id));
                }
            }
        }
    }
}

proof fn lemma_push_node_wf<L>(a: TableView<L>, b: TableView<L>, h: HeaderId, children: Seq<NodeId>)
    requires
        a.wf(),
        a.headers == b.headers,
        b.nodes == a.nodes.push(NodeView::NonTerminal { header: h, children }),
        h < a.headers.len(),
        children.len() == a.headers[h as int].edge_num,
        forall|i: int|
            0 <= i < children.len() ==> a.valid(#[trigger] children[i]) && a.rank(children[i])
                <= a.headers[h as int].level,
    ensures
        b.wf(),
        a.extended_by(b),
{
    lemma_extended(a, b);
    let n = a.nodes.len() as NodeId;
    assert forall|id: NodeId| #[trigger] b.valid(id) implies b.node_linked(id) && b.node_descends(
        id,
    ) by {
        if id < a.nodes.len() {
            assert(a.valid(id));
            assert(a.node_linked(id));
            assert(a.node_descends(id));
            if b.is_nonterminal(id) {
                assert forall|i: int| 0 <= i < b.children(id).len() implies b.valid(
                    #[trigger] b.children(id)[i],
                ) && b.rank(b.children(id)[i]) < b.rank(id) by {
                    let c = a.children(id)[i];
                    assert(a.valid(c));
                    assert(a.rank(c) < a.rank(id));
                }
            }
        } else {
            assert(id == n);
            assert(b.children(id) == children);
            assert(b.rank(id) == a.headers[h as int].level + 1);
            assert forall|i: int| 0 <= i < b.children(id).len() implies b.valid(
                #[trigger] b.children(id)[i],
            ) && b.rank(b.children(id)[i]) < b.rank(id) by {
                let c = children[i];
                assert(a.valid(c));
            }
        }
    }
}

} // verus!
