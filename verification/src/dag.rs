use vstd::prelude::*;
use crate::bit::Bit;
use crate::error::Error;
use crate::gate::{bit_pair, Gate};

verus! {

/// What feeds one side of a gate: an input of the circuit or another gate.
#[derive(Copy, Clone, Debug, PartialEq, Eq, Structural)]
pub enum Child {
    Input(usize),
    Gate(usize),
}

/// A circuit of two-input gates in which every gate names its two children.
///
/// A gate may feed any number of other gates. Its value is computed once and
/// kept in its memo entry; an entry that is there is used as it stands.
pub struct CircuitDag {
    // The gates in the circuit, which will be accessed by index later
    pub gates: Vec<Gate<2>>,
    // Inputs to the circuit
    pub input: Vec<Bit>,
    // The left and the right child of each gate, same length as `gates`
    pub children: Vec<(Child, Child)>,
    // The gates whose values the circuit gives
    pub outputs: Vec<usize>,
    // Memoized evaluations of each gate, same length as `gates`
    pub gate_evals: Vec<Option<Bit>>,
}

/// The value of a child and the memo after its evaluation, given the memo
/// `evals` before it, with gates nested at most `depth` deep below it.
///
/// An input has its own value. A gate that has a memo entry has that entry as
/// its value. Any other gate is evaluated: first its left child, then its
/// right child, then its own function on the two values, and the result is
/// entered in the memo.
///
/// An input, or a gate, a pair of children or a memo entry that does not
/// exist gives `OutOfRangeIndex`. A gate that would have to be evaluated at
/// depth 0 gives `CyclicCircuit`. Both leave the memo as it was when they
/// showed.
pub open spec fn eval_child(
    gates: Seq<Gate<2>>,
    input: Seq<Bit>,
    children: Seq<(Child, Child)>,
    child: Child,
    evals: Seq<Option<Bit>>,
    depth: nat,
) -> (Result<Bit, Error>, Seq<Option<Bit>>)
    decreases depth,
{
    match child {
        Child::Input(i) => if i < input.len() {
            (Ok(input[i as int]), evals)
        } else {
            (Err(Error::OutOfRangeIndex), evals)
        },
        Child::Gate(g) => if g >= gates.len() || g >= children.len() || g >= evals.len() {
            (Err(Error::OutOfRangeIndex), evals)
        } else if evals[g as int] is Some {
            (Ok(evals[g as int]->0), evals)
        } else if depth == 0 {
            (Err(Error::CyclicCircuit), evals)
        } else {
            let left = eval_child(
                gates,
                input,
                children,
                children[g as int].0,
                evals,
                (depth - 1) as nat,
            );
            if left.0 is Err {
                left
            } else {
                let right = eval_child(
                    gates,
                    input,
                    children,
                    children[g as int].1,
                    left.1,
                    (depth - 1) as nat,
                );
                if right.0 is Err {
                    right
                } else {
                    let out = gates[g as int].spec_evaluate(bit_pair(left.0->Ok_0, right.0->Ok_0));
                    (Ok(out), right.1.update(g as int, Some(out)))
                }
            }
        },
    }
}

/// The values of the first `count` outputs, in order, and the memo after
/// their evaluation one after the other. The first failure ends it.
pub open spec fn eval_outputs(
    gates: Seq<Gate<2>>,
    input: Seq<Bit>,
    children: Seq<(Child, Child)>,
    outputs: Seq<usize>,
    count: nat,
    evals: Seq<Option<Bit>>,
) -> (Result<Seq<Bit>, Error>, Seq<Option<Bit>>)
    decreases count,
{
    if count == 0 {
        (Ok(Seq::empty()), evals)
    } else {
        let earlier = eval_outputs(gates, input, children, outputs, (count - 1) as nat, evals);
        if earlier.0 is Err {
            earlier
        } else {
            let last = eval_child(
                gates,
                input,
                children,
                Child::Gate(outputs[count - 1]),
                earlier.1,
                gates.len(),
            );
            match last.0 {
                Err(e) => (Err(e), last.1),
                Ok(value) => (Ok(earlier.0->Ok_0.push(value)), last.1),
            }
        }
    }
}

/// Evaluation keeps the number of memo entries.
pub proof fn lemma_eval_child_memo(
    gates: Seq<Gate<2>>,
    input: Seq<Bit>,
    children: Seq<(Child, Child)>,
    child: Child,
    evals: Seq<Option<Bit>>,
    depth: nat,
)
    ensures
        eval_child(gates, input, children, child, evals, depth).1.len() == evals.len(),
    decreases depth,
{
    if let Child::Gate(g) = child {
        if g < gates.len() && g < children.len() && g < evals.len() && evals[g as int] is None
            && depth > 0 {
            let below = (depth - 1) as nat;
            lemma_eval_child_memo(gates, input, children, children[g as int].0, evals, below);
            let left = eval_child(gates, input, children, children[g as int].0, evals, below);
            lemma_eval_child_memo(gates, input, children, children[g as int].1, left.1, below);
        }
    }
}

/// Whether `level` gives every gate a level below the number of gates such
/// that a gate stands above the gates that are its children: this is how the
/// library says that no gate depends on itself.
pub open spec fn levelled(children: Seq<(Child, Child)>, level: Seq<nat>) -> bool {
    &&& level.len() == children.len()
    &&& forall|g: int| 0 <= g < children.len() ==> #[trigger] level[g] < children.len()
    &&& forall|g: int|
        0 <= g < children.len() ==> above(level, level[g], (#[trigger] children[g]).0) && above(
            level,
            level[g],
            children[g].1,
        )
}

/// Whether `child` is an input, no gate at all, or a gate below level `top`.
pub open spec fn above(level: Seq<nat>, top: nat, child: Child) -> bool {
    match child {
        Child::Input(_) => true,
        Child::Gate(c) => c < level.len() ==> level[c as int] < top,
    }
}

/// A circuit in which no gate depends on itself is never taken for cyclic:
/// with levels as in `levelled`, the evaluation of a child below level
/// `depth` does not end in `CyclicCircuit`.
pub proof fn lemma_levelled_is_not_cyclic(
    gates: Seq<Gate<2>>,
    input: Seq<Bit>,
    children: Seq<(Child, Child)>,
    level: Seq<nat>,
    child: Child,
    evals: Seq<Option<Bit>>,
    depth: nat,
)
    requires
        levelled(children, level),
        above(level, depth, child),
    ensures
        eval_child(gates, input, children, child, evals, depth).0 != Err::<Bit, Error>(
            Error::CyclicCircuit,
        ),
    decreases depth,
{
    if let Child::Gate(g) = child {
        if g < gates.len() && g < children.len() && g < evals.len() && evals[g as int] is None {
            assert(level[g as int] < depth);
            let below = (depth - 1) as nat;
            let pair = children[g as int];
            assert(above(level, level[g as int], pair.0) && above(level, level[g as int], pair.1));
            lemma_levelled_is_not_cyclic(gates, input, children, level, pair.0, evals, below);
            let left = eval_child(gates, input, children, pair.0, evals, below);
            lemma_levelled_is_not_cyclic(gates, input, children, level, pair.1, left.1, below);
        }
    }
}

/// Once the evaluation of the outputs has failed, further outputs change
/// nothing.
pub proof fn lemma_eval_outputs_stops(
    gates: Seq<Gate<2>>,
    input: Seq<Bit>,
    children: Seq<(Child, Child)>,
    outputs: Seq<usize>,
    count: nat,
    more: nat,
    evals: Seq<Option<Bit>>,
)
    requires
        count <= more,
        eval_outputs(gates, input, children, outputs, count, evals).0 is Err,
    ensures
        eval_outputs(gates, input, children, outputs, more, evals) == eval_outputs(
            gates,
            input,
            children,
            outputs,
            count,
            evals,
        ),
    decreases more,
{
    if count < more {
        lemma_eval_outputs_stops(gates, input, children, outputs, count, (more - 1) as nat, evals);
    }
}

impl CircuitDag {
    /// Evaluate the circuit on given input
    ///
    /// Gives the value of every output gate, in order. The memo is taken as
    /// it stands, used and filled by one output after the other, and left
    /// filled: a gate that has an entry is not evaluated again.
    pub fn eval(&mut self) -> (res: Result<Vec<Bit>, Error>)
        ensures
            final(self).gates == old(self).gates,
            final(self).input == old(self).input,
            final(self).children == old(self).children,
            final(self).outputs == old(self).outputs,
            ({
                let (values, memo) = eval_outputs(
                    old(self).gates@,
                    old(self).input@,
                    old(self).children@,
                    old(self).outputs@,
                    old(self).outputs@.len(),
                    old(self).gate_evals@,
                );
                &&& final(self).gate_evals@ == memo
                &&& match res {
                    Ok(out) => values == Ok::<Seq<Bit>, Error>(out@),
                    Err(e) => values == Err::<Seq<Bit>, Error>(e),
                }
            }),
    {
        let mut evals: Vec<Option<Bit>> = Vec::new();
        std::mem::swap(&mut self.gate_evals, &mut evals);
        let mut output: Vec<Bit> = Vec::new();
        let depth = self.gates.len();
        let mut t: usize = 0;
        while t < self.outputs.len()
            invariant
                t <= self.outputs@.len(),
                depth == self.gates@.len(),
                self.gates == old(self).gates,
                self.input == old(self).input,
                self.children == old(self).children,
                self.outputs == old(self).outputs,
                eval_outputs(
                    self.gates@,
                    self.input@,
                    self.children@,
                    self.outputs@,
                    t as nat,
                    old(self).gate_evals@,
                ) == (Ok::<Seq<Bit>, Error>(output@), evals@),
            decreases self.outputs@.len() - t,
        {
            match self.eval_child(Child::Gate(self.outputs[t]), &mut evals, depth) {
                Ok(value) => {
                    output.push(value);
                },
                Err(e) => {
                    proof {
                        lemma_eval_outputs_stops(
                            self.gates@,
                            self.input@,
                            self.children@,
                            self.outputs@,
                            (t + 1) as nat,
                            self.outputs@.len(),
                            old(self).gate_evals@,
                        );
                    }
                    self.gate_evals = evals;
                    return Err(e);
                },
            }
            t += 1;
        }
        self.gate_evals = evals;
        Ok(output)
    }

    /// The value of `child`, with the memo `evals` used and filled on the
    /// way, and with gates nested at most `depth` deep below it.
    pub fn eval_child(&self, child: Child, evals: &mut Vec<Option<Bit>>, depth: usize) -> (res:
        Result<Bit, Error>)
        ensures
            (res, final(evals)@) == eval_child(
                self.gates@,
                self.input@,
                self.children@,
                child,
                old(evals)@,
                depth as nat,
            ),
        decreases depth,
    {
        match child {
            Child::Input(i) => {
                if i >= self.input.len() {
                    return Err(Error::OutOfRangeIndex);
                }
                Ok(self.input[i])
            },
            Child::Gate(g) => {
                if g >= self.gates.len() || g >= self.children.len() || g >= evals.len() {
                    return Err(Error::OutOfRangeIndex);
                }
                if let Some(known) = evals[g] {
                    return Ok(known);
                }
                if depth == 0 {
                    return Err(Error::CyclicCircuit);
                }
                let (left, right) = self.children[g];
                let ghost before = evals@;
                let left_val = match self.eval_child(left, evals, depth - 1) {
                    Ok(value) => value,
                    Err(e) => {
                        return Err(e);
                    },
                };
                let ghost after_left = evals@;
                let right_val = match self.eval_child(right, evals, depth - 1) {
                    Ok(value) => value,
                    Err(e) => {
                        return Err(e);
                    },
                };
                proof {
                    lemma_eval_child_memo(
                        self.gates@,
                        self.input@,
                        self.children@,
                        left,
                        before,
                        (depth - 1) as nat,
                    );
                    lemma_eval_child_memo(
                        self.gates@,
                        self.input@,
                        self.children@,
                        right,
                        after_left,
                        (depth - 1) as nat,
                    );
                }
                let pair = [left_val, right_val];
                assert(pair@ =~= bit_pair(left_val, right_val));
                let out = self.gates[g].evaluate(&pair);
                evals[g] = Some(out);
                Ok(out)
            },
        }
    }
}

/// The value of a child when nothing is remembered, with gates nested at
/// most `depth` deep below it: the input that an input names, and for a gate
/// its function on the values of its two children.
pub open spec fn plain_child(
    gates: Seq<Gate<2>>,
    input: Seq<Bit>,
    children: Seq<(Child, Child)>,
    child: Child,
    depth: nat,
) -> Bit
    decreases depth,
{
    match child {
        Child::Input(i) => input[i as int],
        Child::Gate(g) => if depth == 0 {
            Bit::Zero
        } else {
            gates[g as int].spec_evaluate(
                bit_pair(
                    plain_child(gates, input, children, children[g as int].0, (depth - 1) as nat),
                    plain_child(gates, input, children, children[g as int].1, (depth - 1) as nat),
                ),
            )
        },
    }
}

/// Whether a child names something that is there.
pub open spec fn child_fits(gates: Seq<Gate<2>>, input: Seq<Bit>, child: Child) -> bool {
    match child {
        Child::Input(i) => i < input.len(),
        Child::Gate(g) => g < gates.len(),
    }
}

/// Whether the memo agrees with a circuit: what it has for a gate is the
/// value of that gate when nothing is remembered. A memo without entries
/// agrees with every circuit.
pub open spec fn memo_agrees(
    gates: Seq<Gate<2>>,
    input: Seq<Bit>,
    children: Seq<(Child, Child)>,
    memo: Seq<Option<Bit>>,
) -> bool {
    forall|g: int|
        0 <= g < gates.len() && g < memo.len() && (#[trigger] memo[g]) is Some ==> memo[g] == Some(
            plain_child(gates, input, children, Child::Gate(g as usize), gates.len()),
        )
}

/// Whether a circuit and a memo go together: every gate has a pair of
/// children and a memo entry, every child and every output names something
/// that is there, no gate depends on itself, and the memo agrees with the
/// circuit.
pub open spec fn coherent(
    gates: Seq<Gate<2>>,
    input: Seq<Bit>,
    children: Seq<(Child, Child)>,
    outputs: Seq<usize>,
    level: Seq<nat>,
    memo: Seq<Option<Bit>>,
) -> bool {
    &&& children.len() == gates.len()
    &&& memo.len() >= gates.len()
    &&& forall|g: int|
        0 <= g < gates.len() ==> child_fits(gates, input, (#[trigger] children[g]).0) && child_fits(
            gates,
            input,
            children[g].1,
        )
    &&& forall|t: int| 0 <= t < outputs.len() ==> #[trigger] outputs[t] < gates.len()
    &&& levelled(children, level)
    &&& memo_agrees(gates, input, children, memo)
}

/// The values of the first `count` outputs when nothing is remembered.
pub open spec fn plain_outputs(
    gates: Seq<Gate<2>>,
    input: Seq<Bit>,
    children: Seq<(Child, Child)>,
    outputs: Seq<usize>,
    count: nat,
) -> Seq<Bit> {
    Seq::new(
        count,
        |t: int| plain_child(gates, input, children, Child::Gate(outputs[t]), gates.len()),
    )
}

/// The value of a child when nothing is remembered is the same at every
/// depth above the child's level.
pub proof fn lemma_plain_child_depth(
    gates: Seq<Gate<2>>,
    input: Seq<Bit>,
    children: Seq<(Child, Child)>,
    level: Seq<nat>,
    child: Child,
    low: nat,
    high: nat,
)
    requires
        children.len() == gates.len(),
        forall|g: int|
            0 <= g < gates.len() ==> child_fits(gates, input, (#[trigger] children[g]).0)
                && child_fits(gates, input, children[g].1),
        levelled(children, level),
        child_fits(gates, input, child),
        above(level, low, child),
        above(level, high, child),
    ensures
        plain_child(gates, input, children, child, low) == plain_child(
            gates,
            input,
            children,
            child,
            high,
        ),
    decreases low,
{
    if let Child::Gate(g) = child {
        let pair = children[g as int];
        assert(level[g as int] < low && level[g as int] < high);
        assert(above(level, level[g as int], pair.0) && above(level, level[g as int], pair.1));
        assert(child_fits(gates, input, pair.0) && child_fits(gates, input, pair.1));
        let lower = (low - 1) as nat;
        let higher = (high - 1) as nat;
        assert(above(level, lower, pair.0) && above(level, higher, pair.0));
        assert(above(level, lower, pair.1) && above(level, higher, pair.1));
        lemma_plain_child_depth(gates, input, children, level, pair.0, lower, higher);
        lemma_plain_child_depth(gates, input, children, level, pair.1, lower, higher);
    }
}

/// In a coherent circuit the memo changes nothing but the work: at a depth
/// above its level, the evaluation of a child succeeds, gives the value that
/// the child has when nothing is remembered, and leaves a memo with which
/// the circuit is coherent again.
pub proof fn lemma_eval_child_is_plain(
    gates: Seq<Gate<2>>,
    input: Seq<Bit>,
    children: Seq<(Child, Child)>,
    outputs: Seq<usize>,
    level: Seq<nat>,
    child: Child,
    memo: Seq<Option<Bit>>,
    depth: nat,
)
    requires
        coherent(gates, input, children, outputs, level, memo),
        child_fits(gates, input, child),
        above(level, depth, child),
    ensures
        eval_child(gates, input, children, child, memo, depth).0 == Ok::<Bit, Error>(
            plain_child(gates, input, children, child, gates.len()),
        ),
        coherent(
            gates,
            input,
            children,
            outputs,
            level,
            eval_child(gates, input, children, child, memo, depth).1,
        ),
    decreases depth,
{
    let n = gates.len();
    if let Child::Gate(g) = child {
        let pair = children[g as int];
        assert(level[g as int] < depth && level[g as int] < n);
        assert(above(level, level[g as int], pair.0) && above(level, level[g as int], pair.1));
        assert(child_fits(gates, input, pair.0) && child_fits(gates, input, pair.1));
        if memo[g as int] is None {
            let below = (depth - 1) as nat;
            lemma_eval_child_is_plain(gates, input, children, outputs, level, pair.0, memo, below);
            let left = eval_child(gates, input, children, pair.0, memo, below);
            lemma_eval_child_is_plain(gates, input, children, outputs, level, pair.1, left.1, below);
            let right = eval_child(gates, input, children, pair.1, left.1, below);
            lemma_plain_child_depth(gates, input, children, level, pair.0, (n - 1) as nat, n);
            lemma_plain_child_depth(gates, input, children, level, pair.1, (n - 1) as nat, n);
            let out = plain_child(gates, input, children, child, n);
            let after = right.1.update(g as int, Some(out));
            assert(eval_child(gates, input, children, child, memo, depth) == (
                Ok::<Bit, Error>(out),
                after,
            ));
            assert forall|x: int|
                0 <= x < gates.len() && x < after.len() && (#[trigger] after[x]) is Some implies after[x]
                == Some(plain_child(gates, input, children, Child::Gate(x as usize), n)) by {
                if x != g {
                    assert(right.1[x] == after[x]);
                }
            }
        }
    }
}

/// In a coherent circuit the evaluation of the outputs succeeds and gives
/// the values that the outputs have when nothing is remembered.
pub proof fn lemma_eval_outputs_is_plain(
    gates: Seq<Gate<2>>,
    input: Seq<Bit>,
    children: Seq<(Child, Child)>,
    outputs: Seq<usize>,
    level: Seq<nat>,
    count: nat,
    memo: Seq<Option<Bit>>,
)
    requires
        coherent(gates, input, children, outputs, level, memo),
        count <= outputs.len(),
    ensures
        eval_outputs(gates, input, children, outputs, count, memo).0 == Ok::<Seq<Bit>, Error>(
            plain_outputs(gates, input, children, outputs, count),
        ),
        coherent(
            gates,
            input,
            children,
            outputs,
            level,
            eval_outputs(gates, input, children, outputs, count, memo).1,
        ),
    decreases count,
{
    if count == 0 {
        assert(plain_outputs(gates, input, children, outputs, 0) =~= Seq::<Bit>::empty());
    } else {
        let before = (count - 1) as nat;
        lemma_eval_outputs_is_plain(gates, input, children, outputs, level, before, memo);
        let earlier = eval_outputs(gates, input, children, outputs, before, memo);
        let last = Child::Gate(outputs[count - 1]);
        assert(outputs[count - 1] < gates.len());
        assert(level[outputs[count - 1] as int] < children.len());
        lemma_eval_child_is_plain(
            gates,
            input,
            children,
            outputs,
            level,
            last,
            earlier.1,
            gates.len(),
        );
        assert(plain_outputs(gates, input, children, outputs, count) =~= plain_outputs(
            gates,
            input,
            children,
            outputs,
            before,
        ).push(plain_child(gates, input, children, last, gates.len())));
    }
}

/// What a circuit gives does not depend on its memo. In a coherent circuit,
/// where every reference names something that is there, no gate depends on
/// itself, and the memo is empty or agrees with the circuit, `eval` gives for
/// every output the value that its gate has when nothing is remembered. It
/// leaves a memo with which the circuit is coherent, so a second `eval`
/// gives the same.
pub proof fn lemma_eval_is_memo_free(
    gates: Seq<Gate<2>>,
    input: Seq<Bit>,
    children: Seq<(Child, Child)>,
    outputs: Seq<usize>,
    level: Seq<nat>,
    memo: Seq<Option<Bit>>,
)
    requires
        coherent(gates, input, children, outputs, level, memo),
    ensures
        ({
            let first = eval_outputs(gates, input, children, outputs, outputs.len(), memo);
            let second = eval_outputs(gates, input, children, outputs, outputs.len(), first.1);
            &&& first.0 == Ok::<Seq<Bit>, Error>(
                plain_outputs(gates, input, children, outputs, outputs.len()),
            )
            &&& coherent(gates, input, children, outputs, level, first.1)
            &&& second.0 == first.0
        }),
{
    lemma_eval_outputs_is_plain(gates, input, children, outputs, level, outputs.len(), memo);
    let first = eval_outputs(gates, input, children, outputs, outputs.len(), memo);
    lemma_eval_outputs_is_plain(gates, input, children, outputs, level, outputs.len(), first.1);
}

} // verus!
