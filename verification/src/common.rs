use vstd::prelude::*;

verus! {

/// Index of a node in a node table.
pub type NodeId = usize;

/// Index of a variable header in a node table.
pub type HeaderId = usize;

/// Position of a variable in the order; a higher level is closer to the root.
pub type Level = usize;

/// Why an analysis refused a diagram.
#[derive(Clone, Copy, Debug, PartialEq, Eq, Structural)]
pub enum Error {
    /// An undetermined node stands where a value is needed.
    InvalidDiagram,
    /// An edge does not lead to a strictly lower level.
    CyclicDiagram,
    /// A node names a header that the table does not hold, or a level
    /// that has to be crossed has no header.
    MissingHeader,
    /// A node id that the table does not hold.
    MissingNode,
}

/// A value that can label a terminal node.
pub trait Leaf: Copy + Sized {
    /// Equality of two terminal values.
    fn same(&self, other: &Self) -> (b: bool)
        ensures
            b == (*self == *other),
    ;
}

impl Leaf for bool {
    fn same(&self, other: &Self) -> (b: bool) {
        *self == *other
    }
}

impl Leaf for i32 {
    fn same(&self, other: &Self) -> (b: bool) {
        *self == *other
    }
}

impl Leaf for i64 {
    fn same(&self, other: &Self) -> (b: bool) {
        *self == *other
    }
}

/// Whether `v` occurs in the target set `ss`.
pub fn contains<L: Leaf>(ss: &[L], v: &L) -> (b: bool)
    ensures
        b == ss@.contains(*v),
{
    let mut i: usize = 0;
    while i < ss.len()
        invariant
            i <= ss.len(),
            forall|j: int| 0 <= j < i ==> ss@[j] != *v,
        decreases ss.len() - i,
    {
        if ss[i].same(v) {
            return true;
        }
        i = i + 1;
    }
    false
}

/// Each entry of the memo `before` stands in `after` as it was.
#[verifier::opaque]
pub open spec fn memo_kept<K, V>(before: Map<K, V>, after: Map<K, V>) -> bool {
    forall|k: K| #[trigger] before.contains_key(k) ==> after.contains_key(k) && after[k] == before[k]
}

/// A memo keeps its own entries.
pub proof fn lemma_memo_kept_same<K, V>(m: Map<K, V>)
    ensures
        memo_kept(m, m),
{
    reveal(memo_kept);
}

/// What is kept from step to step is kept over both steps.
pub proof fn lemma_memo_kept_twice<K, V>(a: Map<K, V>, b: Map<K, V>, c: Map<K, V>)
    requires
        memo_kept(a, b),
        memo_kept(b, c),
    ensures
        memo_kept(a, c),
{
    reveal(memo_kept);
    assert forall|k: K| #[trigger] a.contains_key(k) implies c.contains_key(k) && c[k] == a[k] by {
        assert(b.contains_key(k));
    }
}

/// A new entry under a key that the memo did not hold keeps what it held.
pub proof fn lemma_memo_kept_entry<K, V>(a: Map<K, V>, b: Map<K, V>, k: K, v: V)
    requires
        memo_kept(a, b),
        !a.contains_key(k),
    ensures
        memo_kept(a, b.insert(k, v)),
{
    reveal(memo_kept);
}

} // verus!
