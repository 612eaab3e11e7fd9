use garbled_circuits::bit::Bit;
use garbled_circuits::error::Error;
use garbled_circuits::garble::{Garbled, GarblingScheme};
use garbled_circuits::gate::{and_gate, xor_gate, Gate};

/// A scheme on 32-bit values: the secrets count up from the master secret,
/// a combination is twice the first value plus the second, and a lookup key
/// is the combination modulo 1000.
struct Small {
    secret: u32,
    gate: Gate<2>,
}

impl GarblingScheme for Small {
    type Secret = u32;
    type Hash = u32;
    type SymmetricKey = ();
    type Encrypted = u32;

    fn spec_concat(_: u32, _: u32) -> u32 {
        unreachable!()
    }

    fn spec_hash(_: u32) -> u32 {
        unreachable!()
    }

    fn spec_encrypt_with(_: u32, _: Bit) -> u32 {
        unreachable!()
    }

    fn spec_decrypt_with(_: u32, _: u32) -> Bit {
        unreachable!()
    }

    fn spec_gen_pwds(_: u32, _: vstd::prelude::nat) -> vstd::seq::Seq<u32> {
        unreachable!()
    }

    fn lemma_hash_is_key() {
    }

    fn lemma_decrypt_with_inverts(_: u32, _: Bit) {
    }

    fn concat(first: u32, second: u32) -> u32 {
        // order-sensitive: the first value counts double
        first.wrapping_mul(2).wrapping_add(second)
    }

    fn hash(p: &u32) -> u32 {
        *p % 1000
    }

    fn encrypt_with(psswd: u32, output: Bit) -> u32 {
        psswd.wrapping_add(output.as_u64() as u32)
    }

    fn decrypt_with(psswd: u32, value: u32) -> Bit {
        Bit::from_u64(value.wrapping_sub(psswd) as u64)
    }

    fn gen_pwds(sec: u32, count: usize) -> Vec<u32> {
        // sec + 1, sec + 2, ... as long as they fit
        let mut pwds = Vec::new();
        let mut current = sec;
        while pwds.len() < count {
            match current.checked_add(1) {
                Some(next) => {
                    pwds.push(next);
                    current = next;
                }
                None => break,
            }
        }
        pwds
    }
}

impl Garbled<2> for Small {
    fn spec_master_secret(&self) -> u32 {
        unreachable!()
    }

    fn spec_gate(&self) -> Gate<2> {
        unreachable!()
    }

    fn master_secret(&self) -> u32 {
        self.secret
    }

    fn gate(&self) -> &Gate<2> {
        &self.gate
    }
}

#[test]
fn another_scheme_garbles_with_the_same_protocol() {
    let garbled = Small { secret: 10, gate: xor_gate() };
    let table = garbled.compute_garble_table().unwrap();
    // secrets 11..=22; row k has the inputs under 11 + 3k and 12 + 3k
    assert_eq!(table.input_enc_map.get(&0), Some(&(11, 12)));
    assert_eq!(table.input_enc_map.get(&1), Some(&(14, 16)));
    assert_eq!(table.input_enc_map.get(&2), Some(&(18, 18)));
    assert_eq!(table.input_enc_map.get(&3), Some(&(21, 22)));
    assert_eq!(table.input_hash_map.get(&0), Some(&34));
    assert_eq!(table.input_hash_map.get(&1), Some(&44));
    assert_eq!(table.input_hash_map.get(&2), Some(&54));
    assert_eq!(table.input_hash_map.get(&3), Some(&64));
    assert_eq!(table.hash_out_map.get(&34), Some(&Bit::Zero));
    assert_eq!(table.hash_out_map.get(&44), Some(&Bit::One));
    assert_eq!(table.hash_out_map.get(&54), Some(&Bit::One));
    assert_eq!(table.hash_out_map.get(&64), Some(&Bit::Zero));
}

/// A scheme in which every combined value has the lookup key 7.
struct Colliding {
    gate: Gate<2>,
}

impl GarblingScheme for Colliding {
    type Secret = u32;
    type Hash = u32;
    type SymmetricKey = ();
    type Encrypted = u32;

    fn spec_concat(_: u32, _: u32) -> u32 {
        unreachable!()
    }

    fn spec_hash(_: u32) -> u32 {
        unreachable!()
    }

    fn spec_encrypt_with(_: u32, _: Bit) -> u32 {
        unreachable!()
    }

    fn spec_decrypt_with(_: u32, _: u32) -> Bit {
        unreachable!()
    }

    fn spec_gen_pwds(_: u32, _: vstd::prelude::nat) -> vstd::seq::Seq<u32> {
        unreachable!()
    }

    fn lemma_hash_is_key() {
    }

    fn lemma_decrypt_with_inverts(_: u32, _: Bit) {
    }

    fn concat(first: u32, second: u32) -> u32 {
        first.wrapping_add(second)
    }

    fn hash(_p: &u32) -> u32 {
        7
    }

    fn encrypt_with(psswd: u32, output: Bit) -> u32 {
        psswd.wrapping_add(output.as_u64() as u32)
    }

    fn decrypt_with(psswd: u32, value: u32) -> Bit {
        Bit::from_u64(value.wrapping_sub(psswd) as u64)
    }

    fn gen_pwds(sec: u32, count: usize) -> Vec<u32> {
        vec![sec; count]
    }
}

impl Garbled<2> for Colliding {
    fn spec_master_secret(&self) -> u32 {
        unreachable!()
    }

    fn spec_gate(&self) -> Gate<2> {
        unreachable!()
    }

    fn master_secret(&self) -> u32 {
        5
    }

    fn gate(&self) -> &Gate<2> {
        &self.gate
    }
}

#[test]
fn two_rows_with_one_lookup_key_fail() {
    let colliding = Colliding { gate: and_gate() };
    assert!(matches!(colliding.compute_garble_table(), Err(Error::ProtocolPrecondition)));
}

#[test]
fn scheme_whose_secrets_run_out_fails() {
    // twelve secrets up to u32::MAX are there, eleven up to it are too few
    let full = Small { secret: u32::MAX - 12, gate: and_gate() };
    assert_eq!(Small::gen_pwds(u32::MAX - 12, 12).len(), 12);
    assert!(full.compute_garble_table().is_ok());
    let short = Small { secret: u32::MAX - 11, gate: and_gate() };
    assert_eq!(Small::gen_pwds(u32::MAX - 11, 12).len(), 11);
    assert!(matches!(short.compute_garble_table(), Err(Error::ProtocolPrecondition)));
}
