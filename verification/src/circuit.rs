use vstd::prelude::*;
use vstd::std_specs::convert::FromSpecImpl;
use crate::bit::Bit;
use crate::error::Error;
use crate::gate::{bit_pair, Gate};

verus! {

/// The bit that tells an input entry from a gate entry.
pub const MSB_MASK: u64 = 0x8000_0000_0000_0000;

/// The bits of an entry that hold the index.
pub const IDX_MASK: u64 = 0x7fff_ffff_ffff_ffff;

/// The first index that is too wide to store: one bit is the tag, and one more
/// is kept free.
pub const INDEX_LIMIT: u64 = 0x4000_0000_0000_0000;

/// What an entry of a circuit tree refers to.
#[derive(Copy, Clone, Debug, PartialEq, Eq, Structural)]
pub enum NodeType {
    Gate,  // corresponds to 0
    Input,  // corresponds to 1
}

impl From<u64> for NodeType {
    fn from(value: u64) -> (kind: NodeType) {
        match value {
            0 => NodeType::Gate,
            _ => NodeType::Input,
        }
    }
}

impl FromSpecImpl<u64> for NodeType {
    open spec fn obeys_from_spec() -> bool {
        true
    }

    open spec fn from_spec(value: u64) -> NodeType {
        if value == 0 {
            NodeType::Gate
        } else {
            NodeType::Input
        }
    }
}

/// The node that a stored entry stands for: its kind from the top bit, its
/// index from the other bits.
pub open spec fn unpack_node(entry: u64) -> (NodeType, u64) {
    (
        if entry & MSB_MASK == 0 {
            NodeType::Gate
        } else {
            NodeType::Input
        },
        entry & IDX_MASK,
    )
}

/// A binary tree of gates and inputs, laid out in an array: the root is node
/// 0, and the children of node `k` are the nodes `2k + 1` and `2k + 2`.
///
/// Each node is a kind and an index into the gates or the inputs of a
/// circuit. Both are stored in one number, the kind in its top bit.
pub struct CircuitTree {
    inner: Vec<u64>,
}

impl View for CircuitTree {
    type V = Seq<(NodeType, u64)>;

    closed spec fn view(&self) -> Seq<(NodeType, u64)> {
        Seq::new(self.inner@.len(), |k: int| unpack_node(self.inner@[k]))
    }
}

impl CircuitTree {
    /// A tree without nodes.
    pub fn new() -> (tree: Self)
        ensures
            tree@ == Seq::<(NodeType, u64)>::empty(),
    {
        let tree = Self { inner: Vec::new() };
        assert(tree@ =~= Seq::<(NodeType, u64)>::empty());
        tree
    }

    /// Push gate index
    ///
    /// Fails with `OutOfRangeIndex`, and leaves the tree as it is, where the
    /// index is `2^62` or more.
    pub fn push_gate_idx(&mut self, gidx: u64) -> (res: Result<(), Error>)
        ensures
            gidx < INDEX_LIMIT ==> res is Ok && final(self)@ == old(self)@.push(
                (NodeType::Gate, gidx),
            ),
            gidx >= INDEX_LIMIT ==> res == Err::<(), Error>(Error::OutOfRangeIndex) && final(self)@
                == old(self)@,
    {
        if gidx >= INDEX_LIMIT {
            return Err(Error::OutOfRangeIndex);
        }
        // a gate is marked by a top bit of 0: the index is stored as it is
        self.inner.push(gidx);
        proof {
            assert(gidx & MSB_MASK == 0 && gidx & IDX_MASK == gidx) by (bit_vector)
                requires
                    gidx < INDEX_LIMIT,
            ;
            assert(self@ =~= old(self)@.push((NodeType::Gate, gidx)));
        }
        Ok(())
    }

    /// Insert input index
    ///
    /// Fails with `OutOfRangeIndex`, and leaves the tree as it is, where the
    /// index is `2^62` or more.
    pub fn push_input_idx(&mut self, iidx: u64) -> (res: Result<(), Error>)
        ensures
            iidx < INDEX_LIMIT ==> res is Ok && final(self)@ == old(self)@.push(
                (NodeType::Input, iidx),
            ),
            iidx >= INDEX_LIMIT ==> res == Err::<(), Error>(Error::OutOfRangeIndex) && final(self)@
                == old(self)@,
    {
        if iidx >= INDEX_LIMIT {
            return Err(Error::OutOfRangeIndex);
        }
        let val = MSB_MASK | iidx;  // Add bit 1 as msb
        self.inner.push(val);
        proof {
            assert((MSB_MASK | iidx) & MSB_MASK != 0 && (MSB_MASK | iidx) & IDX_MASK == iidx)
                by (bit_vector)
                requires
                    iidx < INDEX_LIMIT,
            ;
            assert(self@ =~= old(self)@.push((NodeType::Input, iidx)));
        }
        Ok(())
    }

    /// The kind and the index of node `idx`; `OutOfRangeIndex` where the tree
    /// has no such node.
    pub fn get(&self, idx: u64) -> (res: Result<(NodeType, u64), Error>)
        ensures
            idx < self@.len() ==> res == Ok::<(NodeType, u64), Error>(self@[idx as int]),
            idx >= self@.len() ==> res == Err::<(NodeType, u64), Error>(Error::OutOfRangeIndex),
    {
        if idx >= self.inner.len() as u64 {
            return Err(Error::OutOfRangeIndex);
        }
        let val = self.inner[idx as usize];
        let msb = val & MSB_MASK;
        let actual_idx = val & IDX_MASK;
        Ok((NodeType::from(msb), actual_idx))
    }
}

/// How many nodes of a tree of `len` nodes come at or after node `node`.
pub open spec fn nodes_left(len: nat, node: int) -> nat {
    if node < len {
        (len - node) as nat
    } else {
        0
    }
}

/// The value of node `node` of a tree and the memo after its evaluation, given
/// the memo `evals` before it.
///
/// An input node has the value of the input it names. A gate node whose gate
/// has a memo entry has that entry as its value, and its children are not
/// looked at. Any other gate node is evaluated: first the left child, then the
/// right child, then its gate on the two values, and the result is entered in
/// the memo under that gate's index.
///
/// A node, an input, a gate or a memo entry that does not exist gives
/// `OutOfRangeIndex`, and the memo as it was when that showed.
pub open spec fn eval_node(
    gates: Seq<Gate<2>>,
    input: Seq<Bit>,
    tree: Seq<(NodeType, u64)>,
    node: int,
    evals: Seq<Option<Bit>>,
) -> (Result<Bit, Error>, Seq<Option<Bit>>)
    decreases nodes_left(tree.len(), node),
{
    if node < 0 || node >= tree.len() {
        (Err(Error::OutOfRangeIndex), evals)
    } else if tree[node].0 == NodeType::Input {
        if tree[node].1 < input.len() {
            (Ok(input[tree[node].1 as int]), evals)
        } else {
            (Err(Error::OutOfRangeIndex), evals)
        }
    } else if tree[node].1 >= evals.len() || tree[node].1 >= gates.len() {
        (Err(Error::OutOfRangeIndex), evals)
    } else if evals[tree[node].1 as int] is Some {
        (Ok(evals[tree[node].1 as int]->0), evals)
    } else {
        let left = eval_node(gates, input, tree, 2 * node + 1, evals);
        if left.0 is Err {
            left
        } else {
            let right = eval_node(gates, input, tree, 2 * node + 2, left.1);
            if right.0 is Err {
                right
            } else {
                let out = gates[tree[node].1 as int].spec_evaluate(
                    bit_pair(left.0->Ok_0, right.0->Ok_0),
                );
                (Ok(out), right.1.update(tree[node].1 as int, Some(out)))
            }
        }
    }
}

/// Evaluation keeps the number of memo entries, and the only failure it knows
/// is `OutOfRangeIndex`.
pub proof fn lemma_eval_node_memo(
    gates: Seq<Gate<2>>,
    input: Seq<Bit>,
    tree: Seq<(NodeType, u64)>,
    node: int,
    evals: Seq<Option<Bit>>,
)
    ensures
        eval_node(gates, input, tree, node, evals).1.len() == evals.len(),
        eval_node(gates, input, tree, node, evals).0 matches Err(e) ==> e
            == Error::OutOfRangeIndex,
    decreases nodes_left(tree.len(), node),
{
    if 0 <= node < tree.len() {
        let (kind, idx) = tree[node];
        if kind == NodeType::Gate && idx < evals.len() && idx < gates.len() && evals[idx as int]
            is None {
            lemma_eval_node_memo(gates, input, tree, 2 * node + 1, evals);
            let left = eval_node(gates, input, tree, 2 * node + 1, evals);
            if left.0 is Ok {
                lemma_eval_node_memo(gates, input, tree, 2 * node + 2, left.1);
            }
        }
    }
}

/// The values of the roots of the first `count` trees, in order, and the memo
/// after their evaluation one after the other. The first failure ends it.
pub open spec fn eval_roots(
    gates: Seq<Gate<2>>,
    input: Seq<Bit>,
    trees: Seq<CircuitTree>,
    count: nat,
    evals: Seq<Option<Bit>>,
) -> (Result<Seq<Bit>, Error>, Seq<Option<Bit>>)
    decreases count,
{
    if count == 0 {
        (Ok(Seq::empty()), evals)
    } else {
        let (earlier, memo) = eval_roots(gates, input, trees, (count - 1) as nat, evals);
        match earlier {
            Err(e) => (Err(e), memo),
            Ok(values) => {
                let (root, after) = eval_node(gates, input, trees[count - 1]@, 0, memo);
                match root {
                    Err(e) => (Err(e), after),
                    Ok(value) => (Ok(values.push(value)), after),
                }
            },
        }
    }
}

/// A circuit that consists of binary boolean gates connected to each other.
/// It is represented as a binary tree in a vec for compact representation.
/// Example circuit representation:
///
///         [Gate A]                   [Gate B]
///          /    \                     /    \
///     [In 1]  [In 2]            [Gate C]  [In 3]
///                               /      \
///                           [In 1]    [In 3]
/// Each would be a circuit tree.
pub struct Circuit {
    // The gates in the circuit, which will be accessed by index later
    pub gates: Vec<Gate<2>>,
    // Inputs to the circuit
    pub input: Vec<Bit>,
    // The circuit trees, root of each represent the output
    pub circuit_trees: Vec<CircuitTree>,
    // Memoized evaluations of each gate, length must be same as `gates`
    pub gate_evals: Vec<Option<Bit>>,
}

impl Circuit {
    /// Evaluate the circuit on given input
    ///
    /// Gives the value of the root of every tree, in order. The memo is taken
    /// as it stands, used and filled by one tree after the other, and left
    /// filled: a gate that has an entry is not evaluated again.
    pub fn eval(&mut self) -> (res: Result<Vec<Bit>, Error>)
        ensures
            final(self).gates == old(self).gates,
            final(self).input == old(self).input,
            final(self).circuit_trees == old(self).circuit_trees,
            ({
                let (values, memo) = eval_roots(
                    old(self).gates@,
                    old(self).input@,
                    old(self).circuit_trees@,
                    old(self).circuit_trees@.len(),
                    old(self).gate_evals@,
                );
                &&& final(self).gate_evals@ == memo
                &&& match res {
                    Ok(out) => values == Ok::<Seq<Bit>, Error>(out@),
                    Err(e) => values == Err::<Seq<Bit>, Error>(e),
                }
            }),
    {
        let mut evals: Vec<Option<Bit>> = Vec::new();
        std::mem::swap(&mut self.gate_evals, &mut evals);
        let mut output: Vec<Bit> = Vec::new();
        let mut t: usize = 0;
        while t < self.circuit_trees.len()
            invariant
                t <= self.circuit_trees@.len(),
                self.gates == old(self).gates,
                self.input == old(self).input,
                self.circuit_trees == old(self).circuit_trees,
                eval_roots(
                    self.gates@,
                    self.input@,
                    self.circuit_trees@,
                    t as nat,
                    old(self).gate_evals@,
                ) == (Ok::<Seq<Bit>, Error>(output@), evals@),
            decreases self.circuit_trees@.len() - t,
        {
            // Get the value of the root gate/node
            match self.eval_tree(0, &self.circuit_trees[t], &mut evals) {
                Ok(value) => {
                    output.push(value);
                },
                Err(e) => {
                    proof {
                        lemma_eval_roots_stops(
                            self.gates@,
                            self.input@,
                            self.circuit_trees@,
                            (t + 1) as nat,
                            self.circuit_trees@.len(),
                            old(self).gate_evals@,
                        );
                    }
                    self.gate_evals = evals;
                    return Err(e);
                },
            }
            t += 1;
        }
        self.gate_evals = evals;
        Ok(output)
    }

    /// The value of node `node_idx` of `tree`, with the memo `evals` used and
    /// filled on the way.
    pub fn eval_tree(&self, node_idx: u64, tree: &CircuitTree, evals: &mut Vec<Option<Bit>>) -> (res:
        Result<Bit, Error>)
        ensures
            (res, final(evals)@) == eval_node(
                self.gates@,
                self.input@,
                tree@,
                node_idx as int,
                old(evals)@,
            ),
        decreases nodes_left(tree@.len(), node_idx as int),
    {
        // Evaluate the children and run them on the root gate
        let (kind, idx) = match tree.get(node_idx) {
            Ok(node) => node,
            Err(e) => {
                return Err(e);
            },
        };
        match kind {
            NodeType::Input => {
                if idx >= self.input.len() as u64 {
                    return Err(Error::OutOfRangeIndex);
                }
                Ok(self.input[idx as usize])
            },
            NodeType::Gate => {
                if idx >= evals.len() as u64 || idx >= self.gates.len() as u64 {
                    return Err(Error::OutOfRangeIndex);
                }
                let gidx = idx as usize;
                if let Some(known) = evals[gidx] {
                    return Ok(known);
                }
                if node_idx > (u64::MAX - 2) / 2 {
                    // no tree is long enough to hold the children of this node
                    assert(tree@.len() == tree.inner.len());
                    assert(eval_node(self.gates@, self.input@, tree@, 2 * node_idx + 1, evals@).0
                        is Err);
                    return Err(Error::OutOfRangeIndex);
                }
                let ghost before = evals@;
                let left_val = match self.eval_tree(node_idx * 2 + 1, tree, evals) {
                    Ok(value) => value,
                    Err(e) => {
                        return Err(e);
                    },
                };
                let ghost after_left = evals@;
                let right_val = match self.eval_tree(node_idx * 2 + 2, tree, evals) {
                    Ok(value) => value,
                    Err(e) => {
                        return Err(e);
                    },
                };
                proof {
                    lemma_eval_node_memo(
                        self.gates@,
                        self.input@,
                        tree@,
                        node_idx * 2 + 1,
                        before,
                    );
                    lemma_eval_node_memo(
                        self.gates@,
                        self.input@,
                        tree@,
                        node_idx * 2 + 2,
                        after_left,
                    );
                }
                let pair = [left_val, right_val];
                assert(pair@ =~= bit_pair(left_val, right_val));
                let res = self.gates[gidx].evaluate(&pair);
                evals[gidx] = Some(res);
                Ok(res)
            },
        }
    }
}

/// Once the evaluation of the roots has failed, further trees change nothing.
pub proof fn lemma_eval_roots_stops(
    gates: Seq<Gate<2>>,
    input: Seq<Bit>,
    trees: Seq<CircuitTree>,
    count: nat,
    more: nat,
    evals: Seq<Option<Bit>>,
)
    requires
        count <= more,
        eval_roots(gates, input, trees, count, evals).0 is Err,
    ensures
        eval_roots(gates, input, trees, more, evals) == eval_roots(
            gates,
            input,
            trees,
            count,
            evals,
        ),
    decreases more,
{
    if count < more {
        lemma_eval_roots_stops(gates, input, trees, count, (more - 1) as nat, evals);
    }
}

/// The value of node `node` of a tree when nothing is remembered: the input
/// that an input node names, and for a gate node its gate on the values of
/// the two children.
pub open spec fn plain_node(
    gates: Seq<Gate<2>>,
    input: Seq<Bit>,
    tree: Seq<(NodeType, u64)>,
    node: int,
) -> Bit
    decreases nodes_left(tree.len(), node),
{
    if node < 0 || node >= tree.len() {
        Bit::Zero
    } else if tree[node].0 == NodeType::Input {
        input[tree[node].1 as int]
    } else {
        gates[tree[node].1 as int].spec_evaluate(
            bit_pair(
                plain_node(gates, input, tree, 2 * node + 1),
                plain_node(gates, input, tree, 2 * node + 2),
            ),
        )
    }
}

/// Whether node `node` names something that is there: an input node an
/// input, a gate node a gate with a memo entry among `slots` entries and with
/// both children in the tree.
pub open spec fn node_fits(
    gates: Seq<Gate<2>>,
    input: Seq<Bit>,
    tree: Seq<(NodeType, u64)>,
    slots: nat,
    node: int,
) -> bool {
    if tree[node].0 == NodeType::Input {
        tree[node].1 < input.len()
    } else {
        tree[node].1 < gates.len() && tree[node].1 < slots && 2 * node + 2 < tree.len()
    }
}

/// Whether a tree has a root and every node of it fits.
pub open spec fn complete_tree(
    gates: Seq<Gate<2>>,
    input: Seq<Bit>,
    tree: Seq<(NodeType, u64)>,
    slots: nat,
) -> bool {
    &&& tree.len() > 0
    &&& forall|node: int| 0 <= node < tree.len() ==> #[trigger] node_fits(gates, input, tree, slots, node)
}

/// Whether a gate that stands at node `a` of one tree and at node `b` of
/// another has the same children at both places.
pub open spec fn same_children(
    first: Seq<(NodeType, u64)>,
    a: int,
    second: Seq<(NodeType, u64)>,
    b: int,
) -> bool {
    first[a].0 == NodeType::Gate && first[a] == second[b] ==> first[2 * a + 1] == second[2 * b + 1]
        && first[2 * a + 2] == second[2 * b + 2]
}

/// Whether every gate has the same children wherever it stands in the two
/// trees.
pub open spec fn same_wiring(first: Seq<(NodeType, u64)>, second: Seq<(NodeType, u64)>) -> bool {
    forall|a: int, b: int|
        0 <= a < first.len() && 0 <= b < second.len() ==> #[trigger] same_children(
            first,
            a,
            second,
            b,
        )
}

/// Whether the entry that the memo has for a gate at node `node`, if it has
/// one, is the value of that node when nothing is remembered.
pub open spec fn entry_agrees(
    gates: Seq<Gate<2>>,
    input: Seq<Bit>,
    tree: Seq<(NodeType, u64)>,
    memo: Seq<Option<Bit>>,
    node: int,
) -> bool {
    tree[node].0 == NodeType::Gate && tree[node].1 < memo.len() && memo[tree[node].1 as int]
        is Some ==> memo[tree[node].1 as int] == Some(plain_node(gates, input, tree, node))
}

/// Whether the memo agrees with a tree: what it has for a gate of the tree
/// is the value of that gate when nothing is remembered. A memo without
/// entries agrees with every tree.
pub open spec fn memo_agrees(
    gates: Seq<Gate<2>>,
    input: Seq<Bit>,
    tree: Seq<(NodeType, u64)>,
    memo: Seq<Option<Bit>>,
) -> bool {
    forall|node: int| 0 <= node < tree.len() ==> #[trigger] entry_agrees(gates, input, tree, memo, node)
}

/// Whether a circuit and a memo go together: every tree is complete, every
/// gate has the same children wherever it stands, and the memo agrees with
/// every tree.
pub open spec fn coherent(
    gates: Seq<Gate<2>>,
    input: Seq<Bit>,
    trees: Seq<CircuitTree>,
    memo: Seq<Option<Bit>>,
) -> bool {
    &&& forall|t: int|
        0 <= t < trees.len() ==> complete_tree(gates, input, (#[trigger] trees[t])@, memo.len())
            && memo_agrees(gates, input, trees[t]@, memo)
    &&& forall|s: int, t: int|
        0 <= s < trees.len() && 0 <= t < trees.len() ==> same_wiring(
            (#[trigger] trees[s])@,
            (#[trigger] trees[t])@,
        )
}

/// The values of the roots of the first `count` trees when nothing is
/// remembered.
pub open spec fn plain_roots(
    gates: Seq<Gate<2>>,
    input: Seq<Bit>,
    trees: Seq<CircuitTree>,
    count: nat,
) -> Seq<Bit> {
    Seq::new(count, |t: int| plain_node(gates, input, trees[t]@, 0))
}

/// Two nodes that name the same thing have the same value when nothing is
/// remembered, in trees in which every gate has the same children wherever it
/// stands.
pub proof fn lemma_same_node_same_value(
    gates: Seq<Gate<2>>,
    input: Seq<Bit>,
    first: Seq<(NodeType, u64)>,
    a: int,
    second: Seq<(NodeType, u64)>,
    b: int,
    slots: nat,
)
    requires
        complete_tree(gates, input, first, slots),
        complete_tree(gates, input, second, slots),
        same_wiring(first, second),
        0 <= a < first.len(),
        0 <= b < second.len(),
        first[a] == second[b],
    ensures
        plain_node(gates, input, first, a) == plain_node(gates, input, second, b),
    decreases nodes_left(first.len(), a),
{
    if first[a].0 == NodeType::Gate {
        assert(node_fits(gates, input, first, slots, a));
        assert(node_fits(gates, input, second, slots, b));
        assert(same_children(first, a, second, b));
        lemma_same_node_same_value(gates, input, first, 2 * a + 1, second, 2 * b + 1, slots);
        lemma_same_node_same_value(gates, input, first, 2 * a + 2, second, 2 * b + 2, slots);
    }
}

/// In a coherent circuit the memo changes nothing but the work: the
/// evaluation of a node succeeds, gives the value that the node has when
/// nothing is remembered, and leaves a memo with which the circuit is
/// coherent again.
pub proof fn lemma_eval_node_is_plain(
    gates: Seq<Gate<2>>,
    input: Seq<Bit>,
    trees: Seq<CircuitTree>,
    t: int,
    node: int,
    memo: Seq<Option<Bit>>,
)
    requires
        coherent(gates, input, trees, memo),
        0 <= t < trees.len(),
        0 <= node < trees[t]@.len(),
    ensures
        eval_node(gates, input, trees[t]@, node, memo).0 == Ok::<Bit, Error>(
            plain_node(gates, input, trees[t]@, node),
        ),
        eval_node(gates, input, trees[t]@, node, memo).1.len() == memo.len(),
        coherent(gates, input, trees, eval_node(gates, input, trees[t]@, node, memo).1),
    decreases nodes_left(trees[t]@.len(), node),
{
    let tree = trees[t]@;
    assert(complete_tree(gates, input, tree, memo.len()));
    assert(node_fits(gates, input, tree, memo.len(), node));
    assert(memo_agrees(gates, input, tree, memo));
    assert(entry_agrees(gates, input, tree, memo, node));
    if tree[node].0 == NodeType::Gate && memo[tree[node].1 as int] is None {
        let g = tree[node].1 as int;
        lemma_eval_node_is_plain(gates, input, trees, t, 2 * node + 1, memo);
        let left = eval_node(gates, input, tree, 2 * node + 1, memo);
        lemma_eval_node_is_plain(gates, input, trees, t, 2 * node + 2, left.1);
        let right = eval_node(gates, input, tree, 2 * node + 2, left.1);
        let out = plain_node(gates, input, tree, node);
        let after = right.1.update(g, Some(out));
        assert(eval_node(gates, input, tree, node, memo) == (Ok::<Bit, Error>(out), after));
        assert forall|s: int| 0 <= s < trees.len() implies complete_tree(
            gates,
            input,
            (#[trigger] trees[s])@,
            after.len(),
        ) && memo_agrees(gates, input, trees[s]@, after) by {
            let other = trees[s]@;
            assert(complete_tree(gates, input, other, right.1.len()));
            assert(memo_agrees(gates, input, other, right.1));
            assert(same_wiring(other, tree));
            assert forall|x: int| 0 <= x < other.len() implies #[trigger] entry_agrees(
                gates,
                input,
                other,
                after,
                x,
            ) by {
                assert(entry_agrees(gates, input, other, right.1, x));
                if other[x].0 == NodeType::Gate && other[x].1 == g {
                    lemma_same_node_same_value(gates, input, other, x, tree, node, memo.len());
                }
            }
        }
    }
}

/// In a coherent circuit the evaluation of the roots succeeds and gives the
/// values that the roots have when nothing is remembered.
pub proof fn lemma_eval_roots_is_plain(
    gates: Seq<Gate<2>>,
    input: Seq<Bit>,
    trees: Seq<CircuitTree>,
    count: nat,
    memo: Seq<Option<Bit>>,
)
    requires
        coherent(gates, input, trees, memo),
        count <= trees.len(),
    ensures
        eval_roots(gates, input, trees, count, memo).0 == Ok::<Seq<Bit>, Error>(
            plain_roots(gates, input, trees, count),
        ),
        eval_roots(gates, input, trees, count, memo).1.len() == memo.len(),
        coherent(gates, input, trees, eval_roots(gates, input, trees, count, memo).1),
    decreases count,
{
    if count == 0 {
        assert(plain_roots(gates, input, trees, 0) =~= Seq::<Bit>::empty());
    } else {
        let before = (count - 1) as nat;
        lemma_eval_roots_is_plain(gates, input, trees, before, memo);
        let earlier = eval_roots(gates, input, trees, before, memo);
        assert(complete_tree(gates, input, trees[count - 1]@, earlier.1.len()));
        lemma_eval_node_is_plain(gates, input, trees, count - 1, 0, earlier.1);
        assert(plain_roots(gates, input, trees, count) =~= plain_roots(
            gates,
            input,
            trees,
            before,
        ).push(plain_node(gates, input, trees[count - 1]@, 0)));
    }
}

/// What a circuit gives does not depend on its memo. In a coherent circuit,
/// where the trees are complete, every gate has the same children wherever
/// it stands, and the memo is empty or agrees with the trees, `eval` gives
/// for every tree the value that its root has when nothing is remembered. It
/// leaves a memo with which the circuit is coherent, so a second `eval`
/// gives the same.
pub proof fn lemma_eval_is_memo_free(
    gates: Seq<Gate<2>>,
    input: Seq<Bit>,
    trees: Seq<CircuitTree>,
    memo: Seq<Option<Bit>>,
)
    requires
        coherent(gates, input, trees, memo),
    ensures
        ({
            let first = eval_roots(gates, input, trees, trees.len(), memo);
            let second = eval_roots(gates, input, trees, trees.len(), first.1);
            &&& first.0 == Ok::<Seq<Bit>, Error>(plain_roots(gates, input, trees, trees.len()))
            &&& coherent(gates, input, trees, first.1)
            &&& second.0 == first.0
        }),
{
    lemma_eval_roots_is_plain(gates, input, trees, trees.len(), memo);
    let first = eval_roots(gates, input, trees, trees.len(), memo);
    lemma_eval_roots_is_plain(gates, input, trees, trees.len(), first.1);
}

} // verus!
