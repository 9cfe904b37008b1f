//! Ordered sequences of solver nodes and their total cost.

use crate::node::Node;
use vstd::prelude::*;

verus! {

/// Sum of the node costs of a sequence, in mathematics.
pub open spec fn seq_cost(s: Seq<Node>) -> int
    decreases s.len(),
{
    if s.len() == 0 {
        0
    } else {
        seq_cost(s.drop_last()) + s.last().cost
    }
}

pub proof fn lemma_seq_cost_concat(a: Seq<Node>, b: Seq<Node>)
    ensures
        seq_cost(a + b) == seq_cost(a) + seq_cost(b),
    decreases b.len(),
{
    if b.len() == 0 {
        assert(a + b =~= a);
    } else {
        lemma_seq_cost_concat(a, b.drop_last());
        assert((a + b).drop_last() =~= a + b.drop_last());
        assert((a + b).last() == b.last());
    }
}

/// Every prefix sum of a sequence of nonnegative costs lies between zero and
/// the total.
pub proof fn lemma_seq_cost_prefix_bounds(s: Seq<Node>, i: int)
    requires
        forall|k: int| 0 <= k < s.len() ==> (#[trigger] s[k]).cost >= 0,
        0 <= i <= s.len(),
    ensures
        0 <= seq_cost(s.take(i)) <= seq_cost(s),
    decreases s.len() - i,
{
    if i == s.len() {
        assert(s.take(i) =~= s);
        lemma_seq_cost_nonneg(s);
    } else {
        lemma_seq_cost_prefix_bounds(s, i + 1);
        assert(s.take(i + 1).drop_last() =~= s.take(i));
        assert(seq_cost(s.take(i + 1)) == seq_cost(s.take(i)) + s[i].cost);
        assert(forall|k: int|
            0 <= k < s.take(i).len() ==> (#[trigger] s.take(i)[k]).cost >= 0);
        lemma_seq_cost_nonneg(s.take(i));
    }
}

/// A sequence whose node costs are all at most `c` costs at most `len * c`.
pub proof fn lemma_seq_cost_upper(s: Seq<Node>, c: int)
    requires
        forall|k: int| 0 <= k < s.len() ==> (#[trigger] s[k]).cost <= c,
    ensures
        seq_cost(s) <= s.len() * c,
    decreases s.len(),
{
    if s.len() == 0 {
    } else {
        lemma_seq_cost_upper(s.drop_last(), c);
        assert(seq_cost(s) == seq_cost(s.drop_last()) + s.last().cost);
        assert((s.len() - 1) * c + c == s.len() * c) by (nonlinear_arith);
    }
}

pub proof fn lemma_seq_cost_nonneg(s: Seq<Node>)
    requires
        forall|k: int| 0 <= k < s.len() ==> (#[trigger] s[k]).cost >= 0,
    ensures
        seq_cost(s) >= 0,
    decreases s.len(),
{
    if s.len() > 0 {
        lemma_seq_cost_nonneg(s.drop_last());
    }
}

/// An ordered collection of [`Node`] steps describing one complete output
/// sequence.
#[derive(Debug)]
pub struct Path {
    nodes: Vec<Node>,
}

impl View for Path {
    type V = Seq<Node>;

    closed spec fn view(&self) -> Seq<Node> {
        self.nodes@
    }
}

impl Path {
    /// Creates an empty path.
    pub fn new() -> (p: Path)
        ensures
            p@ == Seq::<Node>::empty(),
    {
        Path { nodes: Vec::new() }
    }

    /// Computes the total cost of all nodes in the path.
    pub fn cost(&self) -> (r: i32)
        requires
            forall|i: int| 0 <= i <= self@.len() ==> i32::MIN <= #[trigger] seq_cost(self@.take(i)) <= i32::MAX,
        ensures
            r == seq_cost(self@),
    {
        let mut acc: i32 = 0;
        let mut idx: usize = 0;
        while idx < self.nodes.len()
            invariant
                0 <= idx <= self@.len(),
                acc == seq_cost(self@.take(idx as int)),
                forall|i: int| 0 <= i <= self@.len() ==> i32::MIN <= #[trigger] seq_cost(self@.take(i)) <= i32::MAX,
            decreases self@.len() - idx,
        {
            proof {
                assert(self@.take(idx + 1).drop_last() =~= self@.take(idx as int));
                assert(seq_cost(self@.take(idx + 1)) == acc + self@[idx as int].cost);
            }
            acc = acc + self.nodes[idx].cost;
            idx = idx + 1;
        }
        proof {
            assert(self@.take(self@.len() as int) =~= self@);
        }
        acc
    }

    /// Inserts a node at the beginning of the path.
    pub fn add_first(&mut self, node: Node)
        ensures
            final(self)@ == seq![node] + old(self)@,
    {
        self.nodes.insert(0, node);
        proof {
            assert(self.nodes@ =~= seq![node] + old(self)@);
        }
    }

    /// Appends a node at the end of the path.
    pub fn add_last(&mut self, node: Node)
        ensures
            final(self)@ == old(self)@.push(node),
    {
        self.nodes.push(node);
    }

    /// Extends the path with the nodes of `other`, preserving order.
    pub fn extend_back(&mut self, other: &Path)
        ensures
            final(self)@ == old(self)@ + other@,
    {
        let mut idx: usize = 0;
        while idx < other.nodes.len()
            invariant
                0 <= idx <= other@.len(),
                self.nodes@ == old(self)@ + other@.take(idx as int),
            decreases other@.len() - idx,
        {
            self.nodes.push(other.nodes[idx]);
            proof {
                assert(self.nodes@ =~= old(self)@ + other@.take(idx + 1));
            }
            idx = idx + 1;
        }
        proof {
            assert(old(self)@ + other@.take(other@.len() as int) =~= old(self)@ + other@);
        }
    }

    /// Tests whether the path already holds a node at the same tape cell.
    pub fn contains(&self, needle: &Node) -> (r: bool)
        ensures
            r == exists|i: int|
                0 <= i < self@.len() && (#[trigger] self@[i]).pointer == needle.pointer,
    {
        let mut idx: usize = 0;
        while idx < self.nodes.len()
            invariant
                0 <= idx <= self@.len(),
                forall|i: int| 0 <= i < idx ==> (#[trigger] self@[i]).pointer != needle.pointer,
            decreases self@.len() - idx,
        {
            if self.nodes[idx].pointer == needle.pointer {
                return true;
            }
            idx = idx + 1;
        }
        false
    }

    /// Returns the node at the given position.
    pub fn get(&self, i: usize) -> (n: Node)
        requires
            i < self@.len(),
        ensures
            n == self@[i as int],
    {
        self.nodes[i]
    }

    /// Returns the number of nodes stored in the path.
    pub fn len(&self) -> (r: usize)
        ensures
            r == self@.len(),
    {
        self.nodes.len()
    }
}

} // verus!
