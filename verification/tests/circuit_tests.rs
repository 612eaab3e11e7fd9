use garbled_circuits::bit::Bit;
use garbled_circuits::circuit::{Circuit, CircuitTree, NodeType};
use garbled_circuits::error::Error;
use garbled_circuits::gate::{and_gate, nand_gate, or_gate, xor_gate};

#[test]
fn test_circuit_eval() {
    // Create some input bits
    let input_bits = vec![
        Bit::One,  // Input 1: true
        Bit::Zero, // Input 2: false
        Bit::One,  // Input 3: true
        Bit::Zero, // Input 4: false
    ];

    let gate1 = and_gate(); // AND gate
    let gate2 = or_gate(); // OR gate
    let gate3 = xor_gate(); // XOR gate

    // Add gates to the circuit
    let gates = vec![gate1, gate2, gate3];

    // Create the circuit tree
    let mut circuit_tree = CircuitTree::new();
    // Tree structure:
    //        Gate 1 (AND)
    //        /      \
    //   Gate 2      Gate 3
    //   (OR)         (XOR)
    //   / \          /  \
    // In1 In2     In3  In4

    // Add nodes to the tree
    circuit_tree.push_gate_idx(0).unwrap(); // Gate 1
    circuit_tree.push_gate_idx(1).unwrap(); // Gate 2 (left child of Gate 1)
    circuit_tree.push_gate_idx(2).unwrap(); // Gate 3 (right child of Gate 1)
    circuit_tree.push_input_idx(0).unwrap(); // Input 1 (left child of Gate 2)
    circuit_tree.push_input_idx(1).unwrap(); // Input 2 (right child of Gate 2)
    circuit_tree.push_input_idx(2).unwrap(); // Input 3 (left child of Gate 3)
    circuit_tree.push_input_idx(3).unwrap(); // Input 4 (right child of Gate 3)
    let circuit_trees = vec![circuit_tree];
    let num_gates = gates.len();

    // Initialize the circuit
    let mut circuit = Circuit {
        gates,
        input: input_bits,
        circuit_trees,
        gate_evals: (0..num_gates).map(|_| None).collect(),
    };

    // Evaluate the circuit
    let result = circuit.eval();

    // Expected result:
    // - Gate 2 (OR): Input 1 || Input 2 = true || false = true
    // - Gate 3 (XOR): Input 3 ^ Input 4 = true ^ false = true
    // - Gate 1 (AND): Gate 2 && Gate 3 = true && true = true
    assert_eq!(result, Ok(vec![Bit::One]));
}

fn tree_of(nodes: &[(NodeType, u64)]) -> CircuitTree {
    let mut tree = CircuitTree::new();
    for (kind, idx) in nodes {
        match kind {
            NodeType::Gate => tree.push_gate_idx(*idx).unwrap(),
            NodeType::Input => tree.push_input_idx(*idx).unwrap(),
        }
    }
    tree
}

#[test]
fn eval_gives_one_value_for_each_tree() {
    // AND(in0, in1) and OR(XOR(in0, in2), in2) on the inputs 1, 0, 1
    let and_tree = tree_of(&[(NodeType::Gate, 0), (NodeType::Input, 0), (NodeType::Input, 1)]);
    let or_tree = tree_of(&[
        (NodeType::Gate, 1),
        (NodeType::Gate, 2),
        (NodeType::Input, 2),
        (NodeType::Input, 0),
        (NodeType::Input, 2),
    ]);
    let mut circuit = Circuit {
        gates: vec![and_gate(), or_gate(), xor_gate()],
        input: vec![Bit::One, Bit::Zero, Bit::One],
        circuit_trees: vec![and_tree, or_tree],
        gate_evals: vec![None, None, None],
    };
    assert_eq!(circuit.eval(), Ok(vec![Bit::Zero, Bit::One]));
    // the memo holds what every gate evaluated to
    assert_eq!(circuit.gate_evals, vec![Some(Bit::Zero), Some(Bit::One), Some(Bit::Zero)]);
}

#[test]
fn eval_of_no_trees_is_empty() {
    let mut circuit = Circuit {
        gates: vec![and_gate()],
        input: vec![Bit::One],
        circuit_trees: vec![],
        gate_evals: vec![None],
    };
    assert_eq!(circuit.eval(), Ok(vec![]));
    assert_eq!(circuit.gate_evals, vec![None]);
}

#[test]
fn memo_entry_is_used_in_place_of_the_gate() {
    // NAND(1, 1) is 0, but the memo says 1 for gate 0
    let tree = tree_of(&[(NodeType::Gate, 0), (NodeType::Input, 0), (NodeType::Input, 0)]);
    let mut circuit = Circuit {
        gates: vec![nand_gate()],
        input: vec![Bit::One],
        circuit_trees: vec![tree],
        gate_evals: vec![Some(Bit::One)],
    };
    assert_eq!(circuit.eval(), Ok(vec![Bit::One]));
    // with the memo cleared, gate 0 is evaluated afresh
    circuit.gate_evals = vec![None];
    assert_eq!(circuit.eval(), Ok(vec![Bit::Zero]));
    assert_eq!(circuit.gate_evals, vec![Some(Bit::Zero)]);
    // and a second call answers from the memo
    assert_eq!(circuit.eval(), Ok(vec![Bit::Zero]));
}

#[test]
fn memo_entry_is_the_one_of_the_gate_asked_for() {
    // gate 1 has an entry and gate 0 has none: the entry of gate 1 is its value
    let tree = tree_of(&[(NodeType::Gate, 0), (NodeType::Gate, 1), (NodeType::Input, 0)]);
    let mut circuit = Circuit {
        gates: vec![and_gate(), or_gate()],
        input: vec![Bit::One],
        circuit_trees: vec![tree],
        gate_evals: vec![None, Some(Bit::One)],
    };
    assert_eq!(circuit.eval(), Ok(vec![Bit::One]));
    assert_eq!(circuit.gate_evals, vec![Some(Bit::One), Some(Bit::One)]);
}

#[test]
fn a_gate_met_twice_is_evaluated_once() {
    // the right child names gate 1 again, but has no children of its own
    let tree = tree_of(&[
        (NodeType::Gate, 0),
        (NodeType::Gate, 1),
        (NodeType::Gate, 1),
        (NodeType::Input, 0),
        (NodeType::Input, 1),
    ]);
    let mut circuit = Circuit {
        gates: vec![xor_gate(), or_gate()],
        input: vec![Bit::Zero, Bit::One],
        circuit_trees: vec![tree],
        gate_evals: vec![None, None],
    };
    // OR(0, 1) = 1 on both sides, XOR(1, 1) = 0
    assert_eq!(circuit.eval(), Ok(vec![Bit::Zero]));
}

#[test]
fn eval_tree_of_an_inner_node() {
    let tree = tree_of(&[
        (NodeType::Gate, 0),
        (NodeType::Gate, 1),
        (NodeType::Input, 1),
        (NodeType::Input, 0),
        (NodeType::Input, 1),
    ]);
    let circuit = Circuit {
        gates: vec![and_gate(), xor_gate()],
        input: vec![Bit::One, Bit::Zero],
        circuit_trees: vec![],
        gate_evals: vec![],
    };
    let mut evals = vec![None, None];
    assert_eq!(circuit.eval_tree(1, &tree, &mut evals), Ok(Bit::One));
    assert_eq!(evals, vec![None, Some(Bit::One)]);
    assert_eq!(circuit.eval_tree(4, &tree, &mut evals), Ok(Bit::Zero));
    assert_eq!(circuit.eval_tree(0, &tree, &mut evals), Ok(Bit::Zero));
    assert_eq!(evals, vec![Some(Bit::Zero), Some(Bit::One)]);
}

#[test]
fn missing_child_is_out_of_range() {
    let tree = tree_of(&[(NodeType::Gate, 0), (NodeType::Input, 0)]);
    let mut circuit = Circuit {
        gates: vec![and_gate()],
        input: vec![Bit::One],
        circuit_trees: vec![tree],
        gate_evals: vec![None],
    };
    assert_eq!(circuit.eval(), Err(Error::OutOfRangeIndex));
    assert_eq!(circuit.gate_evals, vec![None]);
}

#[test]
fn missing_input_gate_or_memo_entry_is_out_of_range() {
    let no_input = tree_of(&[(NodeType::Input, 3)]);
    let no_gate = tree_of(&[(NodeType::Gate, 1), (NodeType::Input, 0), (NodeType::Input, 0)]);
    let fine = tree_of(&[(NodeType::Gate, 0), (NodeType::Input, 0), (NodeType::Input, 0)]);
    let circuit = Circuit {
        gates: vec![and_gate()],
        input: vec![Bit::One],
        circuit_trees: vec![],
        gate_evals: vec![],
    };
    let mut evals = vec![None, None];
    assert_eq!(circuit.eval_tree(0, &no_input, &mut evals), Err(Error::OutOfRangeIndex));
    assert_eq!(circuit.eval_tree(0, &no_gate, &mut evals), Err(Error::OutOfRangeIndex));
    assert_eq!(circuit.eval_tree(7, &fine, &mut evals), Err(Error::OutOfRangeIndex));
    let mut no_memo = vec![];
    assert_eq!(circuit.eval_tree(0, &fine, &mut no_memo), Err(Error::OutOfRangeIndex));
    assert_eq!(circuit.eval_tree(0, &fine, &mut evals), Ok(Bit::One));
}

#[test]
fn first_failing_tree_ends_the_evaluation() {
    let fine = tree_of(&[(NodeType::Gate, 0), (NodeType::Input, 0), (NodeType::Input, 0)]);
    let broken = tree_of(&[(NodeType::Gate, 1), (NodeType::Input, 0)]);
    let unreached = tree_of(&[(NodeType::Gate, 2), (NodeType::Input, 0), (NodeType::Input, 0)]);
    let mut circuit = Circuit {
        gates: vec![and_gate(), or_gate(), xor_gate()],
        input: vec![Bit::One],
        circuit_trees: vec![fine, broken, unreached],
        gate_evals: vec![None, None, None],
    };
    assert_eq!(circuit.eval(), Err(Error::OutOfRangeIndex));
    assert_eq!(circuit.gate_evals, vec![Some(Bit::One), None, None]);
}

#[test]
fn tree_entries_come_back_as_pushed() {
    let mut tree = CircuitTree::new();
    assert_eq!(tree.get(0), Err(Error::OutOfRangeIndex));
    assert_eq!(tree.push_gate_idx(5), Ok(()));
    assert_eq!(tree.push_input_idx(5), Ok(()));
    assert_eq!(tree.push_input_idx(0), Ok(()));
    assert_eq!(tree.push_gate_idx((1 << 62) - 1), Ok(()));
    assert_eq!(tree.push_input_idx((1 << 62) - 1), Ok(()));
    assert_eq!(tree.get(0), Ok((NodeType::Gate, 5)));
    assert_eq!(tree.get(1), Ok((NodeType::Input, 5)));
    assert_eq!(tree.get(2), Ok((NodeType::Input, 0)));
    assert_eq!(tree.get(3), Ok((NodeType::Gate, (1 << 62) - 1)));
    assert_eq!(tree.get(4), Ok((NodeType::Input, (1 << 62) - 1)));
    assert_eq!(tree.get(5), Err(Error::OutOfRangeIndex));
}

#[test]
fn too_wide_index_is_rejected_and_not_stored() {
    let mut tree = CircuitTree::new();
    assert_eq!(tree.push_gate_idx(1 << 62), Err(Error::OutOfRangeIndex));
    assert_eq!(tree.push_input_idx(1 << 62), Err(Error::OutOfRangeIndex));
    assert_eq!(tree.push_gate_idx(u64::MAX), Err(Error::OutOfRangeIndex));
    assert_eq!(tree.push_input_idx(1 << 63), Err(Error::OutOfRangeIndex));
    assert_eq!(tree.get(0), Err(Error::OutOfRangeIndex));
}

#[test]
fn node_type_from_number() {
    assert_eq!(NodeType::from(0), NodeType::Gate);
    assert_eq!(NodeType::from(1), NodeType::Input);
    assert_eq!(NodeType::from(1 << 63), NodeType::Input);
}

fn plain(gates: &[fn(Bit, Bit) -> Bit], input: &[Bit], tree: &[(NodeType, u64)], node: usize) -> Bit {
    match tree[node] {
        (NodeType::Input, idx) => input[idx as usize],
        (NodeType::Gate, idx) => gates[idx as usize](
            plain(gates, input, tree, 2 * node + 1),
            plain(gates, input, tree, 2 * node + 2),
        ),
    }
}

fn and(a: Bit, b: Bit) -> Bit {
    Bit::from(bool::from(a) && bool::from(b))
}

fn or(a: Bit, b: Bit) -> Bit {
    Bit::from(bool::from(a) || bool::from(b))
}

fn xor(a: Bit, b: Bit) -> Bit {
    Bit::from(a != b)
}

#[test]
fn tree_eval_with_an_empty_memo_is_the_value_without_a_memo() {
    // two trees that share gate 2 = XOR(in0, in2), with the same children in both
    let first = [
        (NodeType::Gate, 0),
        (NodeType::Gate, 2),
        (NodeType::Gate, 1),
        (NodeType::Input, 0),
        (NodeType::Input, 2),
        (NodeType::Gate, 2),
        (NodeType::Input, 1),
        (NodeType::Input, 3),
        (NodeType::Input, 3),
        (NodeType::Input, 3),
        (NodeType::Input, 3),
        (NodeType::Input, 0),
        (NodeType::Input, 2),
    ];
    let second = [(NodeType::Gate, 2), (NodeType::Input, 0), (NodeType::Input, 2)];
    let functions: [fn(Bit, Bit) -> Bit; 3] = [and, or, xor];
    for bits in 0..16usize {
        let input: Vec<Bit> = (0..4).map(|i| Bit::from((bits >> i) & 1 == 1)).collect();
        let mut circuit = Circuit {
            gates: vec![and_gate(), or_gate(), xor_gate()],
            input: input.clone(),
            circuit_trees: vec![tree_of(&first), tree_of(&second)],
            gate_evals: vec![None, None, None],
        };
        let expected =
            vec![plain(&functions, &input, &first, 0), plain(&functions, &input, &second, 0)];
        assert_eq!(circuit.eval(), Ok(expected.clone()));
        // the memo that is left agrees with the trees: a second call gives the same
        assert!(circuit.gate_evals.iter().all(|entry| entry.is_some()));
        assert_eq!(circuit.eval(), Ok(expected));
    }
}
