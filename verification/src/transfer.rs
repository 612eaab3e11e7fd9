use vstd::prelude::*;
use std::collections::HashMap;
use crate::bit::Bit;
use crate::encryption::{lemma_layers_come_off, CommutativeScheme, EncryptionScheme};
use crate::error::Error;
use crate::garble::{
    holds_rows, is_row_hash, lemma_revealed_keys_complete, revealed_key, revealed_keys, row_codes,
    row_hash, GarbledTable, GarblingScheme, PartialAppliedGarbledTable,
};
use crate::gate::{bit_pair, lemma_pair_value, Gate};

verus! {

/// Both halves of a row key encrypted by `party`.
pub open spec fn encrypt_pair<S: EncryptionScheme<Value = E, EncryptedValue = E>, E>(
    party: &S,
    pair: (E, E),
) -> (E, E) {
    (party.spec_encrypt(pair.0), party.spec_encrypt(pair.1))
}

/// Both halves of a row key decrypted by `party`.
pub open spec fn decrypt_pair<S: EncryptionScheme<Value = E, EncryptedValue = E>, E>(
    party: &S,
    pair: (E, E),
) -> (E, E) {
    (party.spec_decrypt(pair.0), party.spec_decrypt(pair.1))
}

/// What the sender offers for row `i`: the row key under the sender's layer.
pub open spec fn offer_at<S: EncryptionScheme<Value = E, EncryptedValue = E>, E>(
    sender: &S,
    rows: Seq<(E, E)>,
    i: int,
) -> (E, E) {
    encrypt_pair(sender, rows[i])
}

/// The row key that the chooser ends up with after the whole exchange.
///
/// The sender offers every row key under its own layer. The chooser takes
/// the offer at the place of its bit and adds its layer. The sender takes its
/// layer off, and the chooser takes off its own.
///
/// A choice for which there is no row gives `OutOfRangeIndex`.
pub open spec fn transferred_key<S: EncryptionScheme<Value = E, EncryptedValue = E>, E>(
    sender: &S,
    chooser: &S,
    rows: Seq<(E, E)>,
    choice: Bit,
) -> Result<(E, E), Error> {
    if choice.value() >= rows.len() {
        Err(Error::OutOfRangeIndex)
    } else {
        let once = offer_at(sender, rows, choice.value() as int);
        let twice = encrypt_pair(chooser, once);
        Ok(decrypt_pair(chooser, decrypt_pair(sender, twice)))
    }
}

/// The output that a row key unlocks: the entry of `outputs` under the hash of
/// the two halves combined. `ProtocolPrecondition` where there is no such
/// entry.
pub open spec fn looked_up<G: GarblingScheme>(
    key: (G::Encrypted, G::Encrypted),
    outputs: Map<G::Hash, Bit>,
) -> Result<Bit, Error> {
    let h = G::spec_hash(G::spec_concat(key.0, key.1));
    if outputs.contains_key(h) {
        Ok(outputs[h])
    } else {
        Err(Error::ProtocolPrecondition)
    }
}

/// Encrypts both halves of a row key.
fn seal_pair<S: EncryptionScheme<Value = E, EncryptedValue = E>, E: Copy>(
    party: &S,
    pair: (E, E),
) -> (res: (E, E))
    ensures
        res == encrypt_pair(party, pair),
{
    let left = party.encrypt(pair.0);
    let right = party.encrypt(pair.1);
    (left, right)
}

/// First step, by the sender: every row key under the sender's layer, in the
/// order of the rows.
pub fn offer_rows<S: EncryptionScheme<Value = E, EncryptedValue = E>, E: Copy>(
    sender: &S,
    rows: &Vec<(E, E)>,
) -> (offers: Vec<(E, E)>)
    ensures
        offers@.len() == rows@.len(),
        forall|i: int| 0 <= i < rows@.len() ==> offers@[i] == #[trigger] offer_at(sender, rows@, i),
{
    let mut offers: Vec<(E, E)> = Vec::new();
    let mut i: usize = 0;
    while i < rows.len()
        invariant
            i <= rows@.len(),
            offers@.len() == i,
            forall|j: int| 0 <= j < i ==> offers@[j] == #[trigger] offer_at(sender, rows@, j),
        decreases rows@.len() - i,
    {
        let offer = seal_pair(sender, rows[i]);
        offers.push(offer);
        i += 1;
    }
    offers
}

/// Second step, by the chooser: the offer at the place of the chooser's bit,
/// under the chooser's layer as well. `OutOfRangeIndex` where there is no
/// offer at that place.
pub fn choose_row<S: EncryptionScheme<Value = E, EncryptedValue = E>, E: Copy>(
    chooser: &S,
    offers: &Vec<(E, E)>,
    choice: Bit,
) -> (res: Result<(E, E), Error>)
    ensures
        res == (if choice.value() >= offers@.len() {
            Err::<(E, E), Error>(Error::OutOfRangeIndex)
        } else {
            Ok(encrypt_pair(chooser, offers@[choice.value() as int]))
        }),
{
    let index: usize = match choice {
        Bit::Zero => 0,
        Bit::One => 1,
    };
    if index >= offers.len() {
        return Err(Error::OutOfRangeIndex);
    }
    Ok(seal_pair(chooser, offers[index]))
}

/// Third and fourth step, by the sender and then by the chooser: the party's
/// own layer taken off both halves.
pub fn strip_layer<S: EncryptionScheme<Value = E, EncryptedValue = E>, E: Copy>(
    party: &S,
    pair: (E, E),
) -> (plain: (E, E))
    ensures
        plain == decrypt_pair(party, pair),
{
    let left = party.decrypt(pair.0);
    let right = party.decrypt(pair.1);
    (left, right)
}

/// Last step, by the chooser: the output that the recovered row key unlocks.
pub fn lookup_output<G: GarblingScheme>(
    key: (G::Encrypted, G::Encrypted),
    outputs: &HashMap<G::Hash, Bit>,
) -> (res: Result<Bit, Error>)
    ensures
        res == looked_up::<G>(key, outputs@),
{
    proof {
        G::lemma_hash_is_key();
    }
    let both = G::concat(key.0, key.1);
    let h = G::hash(&both);
    match outputs.get(&h) {
        Some(out) => Ok(*out),
        None => Err(Error::ProtocolPrecondition),
    }
}

/// The whole exchange between the party that garbled a gate and revealed
/// its bit, and the party that chooses with its own bit. It ends with the
/// output that the recovered row key unlocks.
pub fn oblivious_transfer<
    G: GarblingScheme,
    S: EncryptionScheme<Value = G::Encrypted, EncryptedValue = G::Encrypted>,
>(
    part: &PartialAppliedGarbledTable<G::Hash, G::Encrypted>,
    sender: &S,
    chooser: &S,
    choice: Bit,
) -> (res: Result<Bit, Error>)
    ensures
        res == (match transferred_key(sender, chooser, part.inps_sorted@, choice) {
            Ok(key) => looked_up::<G>(key, part.hash_outputs@),
            Err(e) => Err(e),
        }),
{
    let offers = offer_rows(sender, &part.inps_sorted);
    let twice = match choose_row(chooser, &offers, choice) {
        Ok(twice) => twice,
        Err(e) => {
            return Err(e);
        },
    };
    assert(offers@[choice.value() as int] == offer_at(
        sender,
        part.inps_sorted@,
        choice.value() as int,
    ));
    let once = strip_layer(sender, twice);
    let key = strip_layer(chooser, once);
    lookup_output::<G>(key, &part.hash_outputs)
}

/// With layers that commute, the exchange hands the chooser the row key at
/// the place of its bit, as it was before the exchange.
pub proof fn lemma_transfer_returns_key<S: CommutativeScheme<Value = E>, E>(
    sender: &S,
    chooser: &S,
    rows: Seq<(E, E)>,
    choice: Bit,
)
    requires
        choice.value() < rows.len(),
    ensures
        transferred_key(sender, chooser, rows, choice) == Ok::<(E, E), Error>(
            rows[choice.value() as int],
        ),
{
    let row = rows[choice.value() as int];
    lemma_layers_come_off(sender, chooser, row.0);
    lemma_layers_come_off(sender, chooser, row.1);
}

/// The exchange ends with the right output. Take a two-input gate
/// garbled into `table`, the rows of the partial table for the revealed bit,
/// and an exchange with commuting layers. Then there are two rows, the
/// chooser recovers the row key of the row for the two bits, the hash of that
/// key is in the output map, and the entry under it is what `gate` gives for
/// the revealed bit and the chooser's bit.
pub proof fn lemma_transfer_gives_output<G: GarblingScheme, S: CommutativeScheme<Value = G::Encrypted>>(
    table: GarbledTable<G::Hash, G::Encrypted, 2>,
    pwds: Seq<G::Secret>,
    gate: Gate<2>,
    sender: &S,
    chooser: &S,
    revealed: Bit,
    choice: Bit,
)
    requires
        gate.wf(),
        holds_rows::<G, 2>(table, pwds, gate, 4),
    ensures
        ({
            let rows = revealed_keys::<2>(table.input_hash_map@.dom(), revealed).map_values(
                |key: usize| table.input_enc_map@[key],
            );
            let row = 2 * revealed.value() + choice.value();
            &&& rows.len() == 2
            &&& rows[choice.value() as int] == row_codes::<G, 2>(pwds, row as int)
            &&& transferred_key(sender, chooser, rows, choice) == Ok::<
                (G::Encrypted, G::Encrypted),
                Error,
            >(rows[choice.value() as int])
            &&& looked_up::<G>(rows[choice.value() as int], table.hash_out_map@) == Ok::<
                Bit,
                Error,
            >(gate.spec_evaluate(bit_pair(revealed, choice)))
        }),
{
    let keys = table.input_hash_map@.dom();
    let rows = revealed_keys::<2>(keys, revealed).map_values(
        |key: usize| table.input_enc_map@[key],
    );
    let row = (2 * revealed.value() + choice.value()) as int;
    vstd::arithmetic::power2::lemma2_to64();
    assert(crate::garble::packs::<2>());
    lemma_revealed_keys_complete::<2>(keys, revealed);
    assert(revealed_keys::<2>(keys, revealed)[choice.value() as int] == revealed_key::<2>(
        revealed,
        choice.value() as int,
    ));
    assert(revealed_key::<2>(revealed, choice.value() as int) == row);
    assert(table.input_hash_map@[row as usize] == row_hash::<G, 2>(pwds, row));
    assert(is_row_hash::<G, 2>(pwds, 4, table.input_hash_map@[row as usize]));
    lemma_pair_value(revealed, choice);
    lemma_transfer_returns_key(sender, chooser, rows, choice);
}

} // verus!
