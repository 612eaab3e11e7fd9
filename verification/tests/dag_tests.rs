use garbled_circuits::bit::Bit;
use garbled_circuits::dag::{Child, CircuitDag};
use garbled_circuits::error::Error;
use garbled_circuits::gate::{and_gate, nand_gate, or_gate, xor_gate};

fn example() -> CircuitDag {
    CircuitDag {
        gates: vec![and_gate(), or_gate(), xor_gate()],
        input: vec![Bit::One, Bit::Zero, Bit::One],
        children: vec![
            (Child::Input(0), Child::Input(1)),
            (Child::Gate(2), Child::Input(2)),
            (Child::Input(0), Child::Input(2)),
        ],
        outputs: vec![0, 1],
        gate_evals: vec![None, None, None],
    }
}

#[test]
fn outputs_of_the_example_circuit() {
    let mut circuit = example();
    // AND(1, 0) = 0; XOR(1, 1) = 0, OR(0, 1) = 1
    assert_eq!(circuit.eval(), Ok(vec![Bit::Zero, Bit::One]));
    assert_eq!(circuit.gate_evals, vec![Some(Bit::Zero), Some(Bit::One), Some(Bit::Zero)]);
}

#[test]
fn outputs_come_in_the_order_asked_for() {
    let mut circuit = example();
    circuit.outputs = vec![1, 0, 1, 2];
    assert_eq!(circuit.eval(), Ok(vec![Bit::One, Bit::Zero, Bit::One, Bit::Zero]));
    let mut circuit = example();
    circuit.outputs = vec![];
    assert_eq!(circuit.eval(), Ok(vec![]));
    assert_eq!(circuit.gate_evals, vec![None, None, None]);
}

#[test]
fn second_eval_answers_from_the_memo() {
    let mut circuit = example();
    circuit.eval().unwrap();
    // other inputs, but the memo is still filled
    circuit.input = vec![Bit::One, Bit::One, Bit::Zero];
    assert_eq!(circuit.eval(), Ok(vec![Bit::Zero, Bit::One]));
    // cleared, the gates are evaluated on the inputs as they are now
    circuit.gate_evals = vec![None, None, None];
    assert_eq!(circuit.eval(), Ok(vec![Bit::One, Bit::One]));
    assert_eq!(circuit.gate_evals, vec![Some(Bit::One), Some(Bit::One), Some(Bit::One)]);
}

#[test]
fn shared_gate_feeds_both_sides() {
    // gate 1 = NAND(in0, in1) feeds both sides of gate 0 = XOR
    let mut circuit = CircuitDag {
        gates: vec![xor_gate(), nand_gate()],
        input: vec![Bit::One, Bit::Zero],
        children: vec![(Child::Gate(1), Child::Gate(1)), (Child::Input(0), Child::Input(1))],
        outputs: vec![0],
        gate_evals: vec![None, None],
    };
    assert_eq!(circuit.eval(), Ok(vec![Bit::Zero]));
    assert_eq!(circuit.gate_evals, vec![Some(Bit::Zero), Some(Bit::One)]);
}

#[test]
fn chain_as_long_as_the_number_of_gates_is_no_cycle() {
    // gate k = OR(gate k + 1, in0), the last one OR(in0, in0)
    let n = 50;
    let mut children: Vec<(Child, Child)> =
        (0..n - 1).map(|k| (Child::Gate(k + 1), Child::Input(0))).collect();
    children.push((Child::Input(0), Child::Input(0)));
    let mut circuit = CircuitDag {
        gates: (0..n).map(|_| or_gate()).collect(),
        input: vec![Bit::One],
        children,
        outputs: vec![0],
        gate_evals: vec![None; n],
    };
    assert_eq!(circuit.eval(), Ok(vec![Bit::One]));
    assert_eq!(circuit.gate_evals, vec![Some(Bit::One); n]);
}

#[test]
fn gate_that_depends_on_itself_is_cyclic() {
    let mut circuit = CircuitDag {
        gates: vec![and_gate()],
        input: vec![Bit::One],
        children: vec![(Child::Gate(0), Child::Input(0))],
        outputs: vec![0],
        gate_evals: vec![None],
    };
    assert_eq!(circuit.eval(), Err(Error::CyclicCircuit));
    assert_eq!(circuit.gate_evals, vec![None]);
    // a cycle through two gates, after an output that is fine
    let mut circuit = CircuitDag {
        gates: vec![and_gate(), or_gate(), xor_gate()],
        input: vec![Bit::One],
        children: vec![
            (Child::Input(0), Child::Input(0)),
            (Child::Input(0), Child::Gate(2)),
            (Child::Gate(1), Child::Input(0)),
        ],
        outputs: vec![0, 2, 0],
        gate_evals: vec![None, None, None],
    };
    assert_eq!(circuit.eval(), Err(Error::CyclicCircuit));
    assert_eq!(circuit.gate_evals, vec![Some(Bit::One), None, None]);
    // with an entry for gate 1 the cycle is never entered
    circuit.gate_evals = vec![None, Some(Bit::Zero), None];
    assert_eq!(circuit.eval(), Ok(vec![Bit::One, Bit::One, Bit::One]));
}

#[test]
fn reference_to_nothing_is_out_of_range() {
    let mut circuit = example();
    circuit.outputs = vec![0, 3];
    assert_eq!(circuit.eval(), Err(Error::OutOfRangeIndex));
    assert_eq!(circuit.gate_evals, vec![Some(Bit::Zero), None, None]);
    let mut circuit = example();
    circuit.children[2] = (Child::Input(0), Child::Input(3));
    assert_eq!(circuit.eval(), Err(Error::OutOfRangeIndex));
    let mut circuit = example();
    circuit.children[1] = (Child::Gate(7), Child::Input(2));
    assert_eq!(circuit.eval(), Err(Error::OutOfRangeIndex));
    let mut circuit = example();
    circuit.children.pop();
    assert_eq!(circuit.eval(), Err(Error::OutOfRangeIndex));
    let mut circuit = example();
    circuit.gate_evals.pop();
    assert_eq!(circuit.eval(), Err(Error::OutOfRangeIndex));
}

#[test]
fn eval_child_with_its_own_memo_and_depth() {
    let circuit = example();
    let mut evals = vec![None, None, None];
    assert_eq!(circuit.eval_child(Child::Input(1), &mut evals, 0), Ok(Bit::Zero));
    assert_eq!(circuit.eval_child(Child::Gate(2), &mut evals, 0), Err(Error::CyclicCircuit));
    assert_eq!(circuit.eval_child(Child::Gate(1), &mut evals, 1), Err(Error::CyclicCircuit));
    assert_eq!(evals, vec![None, None, None]);
    assert_eq!(circuit.eval_child(Child::Gate(1), &mut evals, 2), Ok(Bit::One));
    assert_eq!(evals, vec![None, Some(Bit::One), Some(Bit::Zero)]);
    assert_eq!(circuit.eval_child(Child::Gate(2), &mut evals, 0), Ok(Bit::Zero));
}

#[test]
fn dag_eval_with_an_empty_memo_is_the_value_without_a_memo() {
    for bits in 0..8usize {
        let input: Vec<Bit> = (0..3).map(|i| Bit::from((bits >> i) & 1 == 1)).collect();
        let (a, b, c) = (bool::from(input[0]), bool::from(input[1]), bool::from(input[2]));
        let expected = vec![Bit::from(a && b), Bit::from((a != c) || c), Bit::from(a != c)];
        let mut circuit = example();
        circuit.input = input;
        circuit.outputs = vec![0, 1, 2];
        assert_eq!(circuit.eval(), Ok(expected.clone()));
        // the memo that is left agrees with the circuit: a second call gives the same
        assert_eq!(circuit.eval(), Ok(expected));
    }
}
