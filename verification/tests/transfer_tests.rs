use garbled_circuits::bit::Bit;
use garbled_circuits::encryption::{EncryptionScheme, SimpleEncryptionScheme};
use garbled_circuits::error::Error;
use garbled_circuits::garble::{Garbled, GarblingScheme, SimpleGarbledGate};
use garbled_circuits::gate::{and_gate, nand_gate, or_gate, xor_gate, Gate};
use garbled_circuits::transfer::{
    choose_row, lookup_output, oblivious_transfer, offer_rows, strip_layer,
};
use std::collections::HashMap;

type Simple = SimpleGarbledGate<2>;

#[test]
fn simple_encryption_adds_and_subtracts_modulo_two_to_the_64() {
    let alice = SimpleEncryptionScheme(42);
    assert_eq!(alice.encrypt(465), 507);
    assert_eq!(alice.encrypt(0), 42);
    assert_eq!(alice.encrypt(u64::MAX - 42), u64::MAX);
    assert_eq!(alice.encrypt(u64::MAX - 41), 0);
    assert_eq!(alice.encrypt(u64::MAX), 41);
    assert_eq!(alice.decrypt(507), 465);
    assert_eq!(alice.decrypt(42), 0);
    assert_eq!(alice.decrypt(41), u64::MAX);
    assert_eq!(alice.decrypt(0), u64::MAX - 41);
}

#[test]
fn decrypt_undoes_encrypt_on_all_values() {
    for secret in [0, 24, 42, u64::MAX / 2, u64::MAX - 1, u64::MAX] {
        let party = SimpleEncryptionScheme(secret);
        for v in [0, 1, 465, u64::MAX / 2, u64::MAX - 41, u64::MAX] {
            assert_eq!(party.decrypt(party.encrypt(v)), v);
            assert_eq!(party.encrypt(party.decrypt(v)), v);
        }
    }
}

#[test]
fn layers_commute() {
    let alice = SimpleEncryptionScheme(42);
    let bob = SimpleEncryptionScheme(24);
    let carol = SimpleEncryptionScheme(u64::MAX - 3);
    for (first, second) in [(&alice, &bob), (&bob, &carol), (&carol, &alice), (&carol, &carol)] {
        for v in [0, 5118, 12068683666846, u64::MAX - 30, u64::MAX] {
            let twice = second.encrypt(first.encrypt(v));
            assert_eq!(twice, first.encrypt(second.encrypt(v)));
            assert_eq!(first.decrypt(twice), second.encrypt(v));
            assert_eq!(second.decrypt(first.decrypt(twice)), v);
        }
    }
}

#[test]
fn steps_of_the_exchange() {
    let alice = SimpleEncryptionScheme(42);
    let bob = SimpleEncryptionScheme(24);
    let rows = vec![(465, 5118), (619314, 6812458)];
    let offers = offer_rows(&alice, &rows);
    assert_eq!(offers, vec![(507, 5160), (619356, 6812500)]);
    assert_eq!(choose_row(&bob, &offers, Bit::Zero), Ok((531, 5184)));
    let twice = choose_row(&bob, &offers, Bit::One).unwrap();
    assert_eq!(twice, (619380, 6812524));
    let once = strip_layer(&alice, twice);
    assert_eq!(once, (619338, 6812482));
    assert_eq!(strip_layer(&bob, once), (619314, 6812458));
    assert_eq!(offer_rows(&alice, &Vec::new()), Vec::new());
}

#[test]
fn steps_wrap_where_the_values_leave_the_range() {
    let alice = SimpleEncryptionScheme(42);
    assert_eq!(offer_rows(&alice, &vec![(1, 2), (3, u64::MAX)]), vec![(43, 44), (45, 41)]);
    assert_eq!(choose_row(&alice, &vec![(1, 2), (u64::MAX, 3)], Bit::One), Ok((41, 45)));
    assert_eq!(choose_row(&alice, &vec![(1, 2), (u64::MAX, 3)], Bit::Zero), Ok((43, 44)));
    assert_eq!(strip_layer(&alice, (41, 100)), (u64::MAX, 58));
    assert_eq!(strip_layer(&alice, (42, 43)), (0, 1));
}

#[test]
fn choice_without_a_row_is_out_of_range() {
    let bob = SimpleEncryptionScheme(24);
    assert_eq!(choose_row(&bob, &vec![(1, 2)], Bit::One), Err(Error::OutOfRangeIndex));
    assert_eq!(choose_row(&bob, &Vec::new(), Bit::Zero), Err(Error::OutOfRangeIndex));
    assert_eq!(choose_row(&bob, &vec![(1, 2)], Bit::Zero), Ok((25, 26)));
}

#[test]
fn lookup_goes_by_the_hash_of_the_sum() {
    let mut outputs = HashMap::new();
    outputs.insert(Simple::hash(&5583), Bit::One);
    outputs.insert(Simple::hash(&7), Bit::Zero);
    outputs.insert(Simple::hash(&0), Bit::One);
    assert_eq!(lookup_output::<Simple>((465, 5118), &outputs), Ok(Bit::One));
    assert_eq!(lookup_output::<Simple>((5118, 465), &outputs), Ok(Bit::One));
    assert_eq!(lookup_output::<Simple>((3, 4), &outputs), Ok(Bit::Zero));
    assert_eq!(lookup_output::<Simple>((u64::MAX, 1), &outputs), Ok(Bit::One));
    assert_eq!(lookup_output::<Simple>((3, 5), &outputs), Err(Error::ProtocolPrecondition));
}

fn exchange(secret: u64, gate: Gate<2>, alice: u64, bob: u64) {
    let garbled = SimpleGarbledGate::new(secret, gate);
    let table = garbled.compute_garble_table().unwrap();
    let sender = SimpleEncryptionScheme(alice);
    let chooser = SimpleEncryptionScheme(bob);
    for revealed in [Bit::Zero, Bit::One] {
        let part = table.get_partial_applied_table(revealed).unwrap();
        for choice in [Bit::Zero, Bit::One] {
            // step by step
            let offers = offer_rows(&sender, &part.inps_sorted);
            let twice = choose_row(&chooser, &offers, choice).unwrap();
            let once = strip_layer(&sender, twice);
            let key = strip_layer(&chooser, once);
            assert_eq!(key, part.inps_sorted[choice.as_u64() as usize]);
            let lookup_key = Simple::hash(&Simple::concat(key.0, key.1));
            assert!(part.hash_outputs.contains_key(&lookup_key));
            let expected = garbled.gate().evaluate(&[revealed, choice]);
            assert_eq!(lookup_output::<Simple>(key, &part.hash_outputs), Ok(expected));
            // and in one call
            assert_eq!(
                oblivious_transfer::<Simple, _>(&part, &sender, &chooser, choice),
                Ok(expected)
            );
        }
    }
}

#[test]
fn exchange_ends_with_the_output_for_both_bits() {
    exchange(42, and_gate(), 42, 24);
    exchange(42, or_gate(), 42, 24);
    exchange(42, xor_gate(), 42, 24);
    exchange(42, nand_gate(), 42, 24);
    exchange(7, xor_gate(), 0, 0);
    exchange(0, nand_gate(), 1 << 40, 1 << 50);
}

#[test]
fn exchange_goes_through_with_any_secrets() {
    exchange(42, and_gate(), u64::MAX, 24);
    exchange(42, or_gate(), 42, u64::MAX);
    exchange(42, xor_gate(), u64::MAX, u64::MAX);
    exchange(5_800_000, nand_gate(), u64::MAX - 1, 1 << 63);
}

#[test]
fn and_of_zero_and_one_is_zero() {
    let garbled = SimpleGarbledGate::new(42, and_gate());
    let table = garbled.compute_garble_table().unwrap();
    let part = table.get_partial_applied_table(Bit::Zero).unwrap();
    let alice = SimpleEncryptionScheme(42);
    let bob = SimpleEncryptionScheme(24);
    assert_eq!(oblivious_transfer::<Simple, _>(&part, &alice, &bob, Bit::One), Ok(Bit::Zero));
    let part = table.get_partial_applied_table(Bit::One).unwrap();
    assert_eq!(oblivious_transfer::<Simple, _>(&part, &alice, &bob, Bit::One), Ok(Bit::One));
}

#[test]
fn exchange_fails_where_a_row_or_an_entry_is_missing() {
    let garbled = SimpleGarbledGate::new(42, and_gate());
    let table = garbled.compute_garble_table().unwrap();
    let mut part = table.get_partial_applied_table(Bit::One).unwrap();
    let alice = SimpleEncryptionScheme(42);
    let bob = SimpleEncryptionScheme(24);
    part.inps_sorted.pop();
    assert_eq!(
        oblivious_transfer::<Simple, _>(&part, &alice, &bob, Bit::One),
        Err(Error::OutOfRangeIndex)
    );
    assert_eq!(oblivious_transfer::<Simple, _>(&part, &alice, &bob, Bit::Zero), Ok(Bit::Zero));
    part.hash_outputs.clear();
    assert_eq!(
        oblivious_transfer::<Simple, _>(&part, &alice, &bob, Bit::Zero),
        Err(Error::ProtocolPrecondition)
    );
}
