use crate::common::{contains, Leaf, NodeId};
use crate::table::{hash_consed, NodeTable};
use vstd::prelude::*;

verus! {

/// A value that a terminal of a multi-valued diagram can hold: a number
/// type that takes the integers 0 and 1, as which the terminals false and
/// true of a Boolean diagram are counted.
pub trait MDDValue: Leaf {
    /// The value that stands for the integer `x`.
    spec fn from_i32_spec(x: i32) -> Self;

    fn from_i32(x: i32) -> (r: Self)
        ensures
            r == Self::from_i32_spec(x),
    ;
}

impl MDDValue for i32 {
    open spec fn from_i32_spec(x: i32) -> Self {
        x
    }

    fn from_i32(x: i32) -> (r: Self) {
        x
    }
}

impl MDDValue for i64 {
    open spec fn from_i32_spec(x: i32) -> Self {
        x as i64
    }

    fn from_i32(x: i32) -> (r: Self) {
        x as i64
    }
}

/// A node of a multi-valued diagram: one with value terminals, or one
/// with Boolean terminals.
#[derive(Clone, Copy, Debug, PartialEq, Eq, Structural)]
pub enum Node {
    /// A node of the table with value terminals.
    Value(NodeId),
    /// A node of the table with Boolean terminals.
    Bool(NodeId),
}

/// Two node tables side by side: one for diagrams that end in values,
/// one for diagrams that end in false or true.
pub struct MtMdd2Manager<V> {
    pub mdd: NodeTable<bool>,
    pub mtmdd: NodeTable<V>,
}

impl<V: MDDValue> MtMdd2Manager<V> {
    /// Both tables are well formed, and the Boolean one holds false and
    /// true.
    pub open spec fn wf(&self) -> bool {
        &&& self.mdd.wf()
        &&& self.mdd@.has_constants()
        &&& self.mtmdd.wf()
    }

    /// Two empty tables.
    pub fn new() -> (r: Self)
        ensures
            r.wf(),
            r.mdd@.headers.len() == 0,
            r.mtmdd@.headers.len() == 0,
            hash_consed(r.mdd@),
            hash_consed(r.mtmdd@),
    {
        MtMdd2Manager { mdd: NodeTable::new_boolean(), mtmdd: NodeTable::new() }
    }

    /// The number of headers and nodes of the Boolean table, then of the
    /// value table.
    pub fn size(&self) -> (r: (usize, usize, usize, usize))
        ensures
            r.0 == self.mdd@.headers.len(),
            r.1 == self.mdd@.nodes.len(),
            r.2 == self.mtmdd@.headers.len(),
            r.3 == self.mtmdd@.nodes.len(),
    {
        let a = self.mdd.size();
        let b = self.mtmdd.size();
        (a.0, a.1, b.0, b.1)
    }

    /// The terminal false.
    pub fn zero(&self) -> (r: Node)
        ensures
            r == Node::Bool(1),
    {
        Node::Bool(self.mdd.zero())
    }

    /// The terminal true.
    pub fn one(&self) -> (r: Node)
        ensures
            r == Node::Bool(2),
    {
        Node::Bool(self.mdd.one())
    }
}

/// The target set of a Boolean diagram that goes with a target set of
/// values: false where the value for 0 is a target, true where the value
/// for 1 is.
pub open spec fn bool_targets<V: MDDValue>(ss: Seq<V>) -> Seq<bool> {
    (if ss.contains(V::from_i32_spec(0)) {
        seq![false]
    } else {
        Seq::<bool>::empty()
    }) + (if ss.contains(V::from_i32_spec(1)) {
        seq![true]
    } else {
        Seq::<bool>::empty()
    })
}

/// The target set of a Boolean diagram that goes with `ss`.
pub fn to_bool_targets<V: MDDValue>(ss: &[V]) -> (r: Vec<bool>)
    ensures
        r@ == bool_targets(ss@),
        r@.contains(false) <==> ss@.contains(V::from_i32_spec(0)),
        r@.contains(true) <==> ss@.contains(V::from_i32_spec(1)),
{
    let mut r: Vec<bool> = Vec::new();
    if contains(ss, &V::from_i32(0)) {
        r.push(false);
    }
    let ghost first = r@;
    if contains(ss, &V::from_i32(1)) {
        r.push(true);
    }
    proof {
        assert(r@ =~= bool_targets(ss@));
        if ss@.contains(V::from_i32_spec(0)) {
            assert(r@[0] == false);
        }
        if ss@.contains(V::from_i32_spec(1)) {
            assert(r@[r@.len() - 1] == true);
        }
    }
    r
}

} // verus!
