use vstd::prelude::*;
use vstd::std_specs::hash::obeys_key_model;
use vstd::string::StringExecFns;
use std::collections::HashMap;
use crate::bit::Bit;
use crate::error::Error;
use crate::garble::{is_row_hash, row_codes, row_hash, GarblingScheme, SimpleGarbledGate};
use crate::gate::bits_of;

verus! {

/// The two inputs of a row.
pub type Input = (Bit, Bit);

/// The text of a truth table: a title with the name given, a heading,
/// and one line for each row.
pub open spec fn truth_table_text(name: Seq<char>, rows: Seq<(Input, Bit)>) -> Seq<char> {
    "Truth Table for "@ + name + ":\n"@ + " A  | B  | Output\n"@ + "----|----|-------\n"@
        + rows_text(rows)
}

/// The lines of the rows, one after the other.
pub open spec fn rows_text(rows: Seq<(Input, Bit)>) -> Seq<char>
    decreases rows.len(),
{
    if rows.len() == 0 {
        Seq::empty()
    } else {
        rows_text(rows.drop_last()) + row_text(rows.last())
    }
}

/// The line of one row: the two inputs and the output in three columns.
pub open spec fn row_text(row: (Input, Bit)) -> Seq<char> {
    " "@ + row.0.0.digit() + "  | "@ + row.0.1.digit() + "  | "@ + row.1.digit() + "\n"@
}

/// Writes a truth table under the given name.
fn render_truth_table(name: &str, table: &[(Input, Bit); 4]) -> (text: String)
    ensures
        text@ == truth_table_text(name@, table@),
{
    let mut text = String::from_str("Truth Table for ");
    text.append(name);
    text.append(":\n");
    text.append(" A  | B  | Output\n");
    text.append("----|----|-------\n");
    let ghost heading = text@;
    let mut r: usize = 0;
    assert(table@.take(0) =~= Seq::<(Input, Bit)>::empty());
    assert(text@ =~= heading + rows_text(table@.take(0)));
    while r < 4
        invariant
            r <= 4,
            text@ == heading + rows_text(table@.take(r as int)),
        decreases 4 - r,
    {
        let ((a, b), output) = table[r];
        let ghost before = text@;
        text.append(" ");
        text.append(a.to_string().as_str());
        text.append("  | ");
        text.append(b.to_string().as_str());
        text.append("  | ");
        text.append(output.to_string().as_str());
        text.append("\n");
        proof {
            let now = table@.take(r + 1);
            assert(now.drop_last() =~= table@.take(r as int));
            assert(now.last() == table@[r as int]);
            assert(text@ =~= before + row_text(table@[r as int]));
            assert(text@ =~= heading + rows_text(now));
        }
        r += 1;
    }
    assert(table@.take(4) =~= table@);
    text
}

/// A two-input gate given by its truth table: four rows, in any order.
pub trait Gate {
    /// What `table` returns.
    spec fn spec_table(&self) -> [(Input, Bit); 4];

    /// The four rows: a pair of inputs and the output for it.
    fn table(&self) -> (rows: [(Input, Bit); 4])
        ensures
            rows == self.spec_table(),
    ;

    /// The truth table as text, under the name given for this gate.
    fn as_str(&self, name: &str) -> (text: String)
        ensures
            text@ == truth_table_text(name@, self.spec_table()@),
    {
        let table = self.table();
        render_truth_table(name, &table)
    }
}

/// The AND gate: one exactly when both inputs are one.
#[derive(Debug, Clone)]
pub struct AndGate;

impl Gate for AndGate {
    open spec fn spec_table(&self) -> [(Input, Bit); 4] {
        [
            ((Bit::Zero, Bit::Zero), Bit::Zero),
            ((Bit::Zero, Bit::One), Bit::Zero),
            ((Bit::One, Bit::Zero), Bit::Zero),
            ((Bit::One, Bit::One), Bit::One),
        ]
    }

    fn table(&self) -> (rows: [(Input, Bit); 4]) {
        [
            ((Bit::Zero, Bit::Zero), Bit::Zero),
            ((Bit::Zero, Bit::One), Bit::Zero),
            ((Bit::One, Bit::Zero), Bit::Zero),
            ((Bit::One, Bit::One), Bit::One),
        ]
    }
}

/// A garbled table whose outputs are sealed as well: under the lookup key of
/// a row stands the row's output encrypted under the row's third secret.
///
/// The two maps over inputs are keyed by the packed pair of inputs, twice the
/// first plus the second.
#[derive(Clone, Debug)]
pub struct GarbledTable<H, E> {
    pub input_hash_map: HashMap<usize, H>,
    pub input_enc_map: HashMap<usize, (E, E)>,
    pub hash_out_map: HashMap<H, E>,
}

/// The pair of inputs that packs to `k`.
pub open spec fn pair_of(k: int) -> Input {
    (Bit::of_nat((k / 2) as nat), Bit::of_nat((k % 2) as nat))
}

/// The output that the first row about `pair` names; `None` where no row is
/// about it.
pub open spec fn found_output(rows: Seq<(Input, Bit)>, pair: Input) -> Option<Bit>
    decreases rows.len(),
{
    if rows.len() == 0 {
        None
    } else if rows.first().0 == pair {
        Some(rows.first().1)
    } else {
        found_output(rows.drop_first(), pair)
    }
}

/// The output of row `k` under the row's third secret, `pwds[3k + 2]`; `None`
/// where the table has no row for the pair.
pub open spec fn sealed_output<S: GarblingScheme>(
    pwds: Seq<S::Secret>,
    rows: Seq<(Input, Bit)>,
    k: int,
) -> Option<S::Encrypted> {
    match found_output(rows, pair_of(k)) {
        Some(out) => Some(S::spec_encrypt_with(pwds[3 * k + 2], out)),
        None => None,
    }
}

/// Whether the derived secrets `pwds` garble the truth table `rows`: there
/// are twelve secrets, every pair of inputs has a row, and no two pairs have
/// the same lookup key.
pub open spec fn can_seal<S: GarblingScheme>(pwds: Seq<S::Secret>, rows: Seq<(Input, Bit)>) -> bool {
    &&& pwds.len() == 12
    &&& forall|k: int| 0 <= k < 4 ==> (#[trigger] sealed_output::<S>(pwds, rows, k)) is Some
    &&& forall|j: int, k: int|
        0 <= j < k < 4 ==> #[trigger] row_hash::<S, 2>(pwds, j) != #[trigger] row_hash::<S, 2>(
            pwds,
            k,
        )
}

/// Whether `table` holds exactly the first `n` pairs of inputs, garbled under
/// `pwds` with the outputs that `rows` names.
pub open spec fn holds_sealed<S: GarblingScheme>(
    table: GarbledTable<S::Hash, S::Encrypted>,
    pwds: Seq<S::Secret>,
    rows: Seq<(Input, Bit)>,
    n: int,
) -> bool {
    &&& forall|k: usize| #[trigger] table.input_hash_map@.contains_key(k) <==> k < n
    &&& forall|k: usize| #[trigger] table.input_enc_map@.contains_key(k) <==> k < n
    &&& forall|h: S::Hash| #[trigger]
        table.hash_out_map@.contains_key(h) <==> is_row_hash::<S, 2>(pwds, n, h)
    &&& forall|k: int|
        0 <= k < n ==> {
            &&& table.input_hash_map@[k as usize] == #[trigger] row_hash::<S, 2>(pwds, k)
            &&& table.input_enc_map@[k as usize] == row_codes::<S, 2>(pwds, k)
            &&& Some(table.hash_out_map@[table.input_hash_map@[k as usize]]) == sealed_output::<S>(
                pwds,
                rows,
                k,
            )
        }
}

/// The two bits of a number below four are its pair of inputs.
pub proof fn lemma_pair_bits(k: int)
    requires
        0 <= k < 4,
    ensures
        bits_of(k as nat, 2) == seq![pair_of(k).0, pair_of(k).1],
{
    reveal_with_fuel(bits_of, 3);
    assert(bits_of(k as nat, 2) =~= seq![pair_of(k).0, pair_of(k).1]);
}

/// Looks for the first row about `pair`.
fn find_output(rows: &[(Input, Bit); 4], pair: Input) -> (out: Option<Bit>)
    ensures
        out == found_output(rows@, pair),
{
    let mut r: usize = 0;
    assert(rows@.skip(0) =~= rows@);
    while r < 4
        invariant
            r <= 4,
            found_output(rows@, pair) == found_output(rows@.skip(r as int), pair),
        decreases 4 - r,
    {
        let (key, out) = rows[r];
        proof {
            let rest = rows@.skip(r as int);
            assert(rest.first() == rows@[r as int]);
            assert(rest.drop_first() =~= rows@.skip(r + 1));
        }
        if key.0 == pair.0 && key.1 == pair.1 {
            return Some(out);
        }
        r += 1;
    }
    None
}

/// Garbling of a gate that is given by its truth table, with sealed outputs.
pub trait Garbled: GarblingScheme {
    /// Garbles `gate` under the master secret `secret`.
    ///
    /// Twelve secrets are derived, three for each pair of inputs in the order
    /// 00, 01, 10, 11. The two inputs of a pair are encrypted under the first
    /// two, and the output that the truth table names for the pair under the
    /// third. The pair is entered with its two encrypted inputs and with its
    /// lookup key, and the lookup key with the sealed output.
    ///
    /// Fails with `ProtocolPrecondition` where the secrets run out, the table
    /// has no row for a pair, or two pairs get one lookup key.
    fn compute_garble_table<T: Gate>(secret: Self::Secret, gate: &T) -> (res: Result<
        GarbledTable<Self::Hash, Self::Encrypted>,
        Error,
    >)
        ensures
            res is Ok <==> can_seal::<Self>(Self::spec_gen_pwds(secret, 12), gate.spec_table()@),
            res matches Err(e) ==> e == Error::ProtocolPrecondition,
            res matches Ok(table) ==> holds_sealed::<Self>(
                table,
                Self::spec_gen_pwds(secret, 12),
                gate.spec_table()@,
                4,
            ),
    {
        let pwds = Self::gen_pwds(secret, 12);
        if pwds.len() != 12 {
            return Err(Error::ProtocolPrecondition);
        }
        let rows = gate.table();
        let mut table = GarbledTable {
            input_hash_map: HashMap::<usize, Self::Hash>::new(),
            input_enc_map: HashMap::<usize, (Self::Encrypted, Self::Encrypted)>::new(),
            hash_out_map: HashMap::<Self::Hash, Self::Encrypted>::new(),
        };
        proof {
            Self::lemma_hash_is_key();
        }
        let mut k: usize = 0;
        while k < 4
            invariant
                k <= 4,
                pwds@.len() == 12,
                pwds@ == Self::spec_gen_pwds(secret, 12),
                rows == gate.spec_table(),
                obeys_key_model::<Self::Hash>(),
                holds_sealed::<Self>(table, pwds@, rows@, k as int),
                forall|j: int| 0 <= j < k ==> (#[trigger] sealed_output::<Self>(pwds@, rows@, j)) is Some,
                forall|i: int, j: int|
                    0 <= i < j < k ==> #[trigger] row_hash::<Self, 2>(pwds@, i) != #[trigger] row_hash::<
                        Self,
                        2,
                    >(pwds@, j),
            decreases 4 - k,
        {
            let ghost before = table;
            let pair = (Bit::from_u64((k / 2) as u64), Bit::from_u64((k % 2) as u64));
            proof {
                lemma_pair_bits(k as int);
                assert(pair == pair_of(k as int));
            }
            let left = Self::encrypt_with(pwds[3 * k], pair.0);
            let right = Self::encrypt_with(pwds[3 * k + 1], pair.1);
            let out = match find_output(&rows, pair) {
                Some(out) => out,
                None => {
                    assert(sealed_output::<Self>(pwds@, rows@, k as int) is None);
                    return Err(Error::ProtocolPrecondition);
                },
            };
            let sealed = Self::encrypt_with(pwds[3 * k + 2], out);
            let both = Self::concat(left, right);
            let h = Self::hash(&both);
            assert(row_codes::<Self, 2>(pwds@, k as int) == (left, right));
            assert(row_hash::<Self, 2>(pwds@, k as int) == h);
            assert(sealed_output::<Self>(pwds@, rows@, k as int) == Some(sealed));
            if table.hash_out_map.contains_key(&h) {
                proof {
                    let j = choose|j: int|
                        0 <= j < k && #[trigger] row_hash::<Self, 2>(pwds@, j) == h;
                    assert(row_hash::<Self, 2>(pwds@, j) == row_hash::<Self, 2>(pwds@, k as int));
                }
                return Err(Error::ProtocolPrecondition);
            }
            table.input_hash_map.insert(k, h);
            table.input_enc_map.insert(k, (left, right));
            table.hash_out_map.insert(h, sealed);
            proof {
                assert forall|x: Self::Hash| #[trigger]
                    table.hash_out_map@.contains_key(x) <==> is_row_hash::<Self, 2>(
                        pwds@,
                        k + 1,
                        x,
                    ) by {
                    if x == h {
                        assert(row_hash::<Self, 2>(pwds@, k as int) == x);
                    } else {
                        if is_row_hash::<Self, 2>(pwds@, k + 1, x) {
                            let j = choose|j: int|
                                0 <= j < k + 1 && #[trigger] row_hash::<Self, 2>(pwds@, j) == x;
                            assert(j < k);
                            assert(is_row_hash::<Self, 2>(pwds@, k as int, x));
                        }
                        if before.hash_out_map@.contains_key(x) {
                            assert(is_row_hash::<Self, 2>(pwds@, k as int, x));
                            let j = choose|j: int|
                                0 <= j < k && #[trigger] row_hash::<Self, 2>(pwds@, j) == x;
                            assert(0 <= j < k + 1);
                        }
                    }
                }
                assert forall|j: int| 0 <= j < k + 1 implies {
                    &&& table.input_hash_map@[j as usize] == #[trigger] row_hash::<Self, 2>(
                        pwds@,
                        j,
                    )
                    &&& table.input_enc_map@[j as usize] == row_codes::<Self, 2>(pwds@, j)
                    &&& Some(table.hash_out_map@[table.input_hash_map@[j as usize]])
                        == sealed_output::<Self>(pwds@, rows@, j)
                } by {
                    if j < k {
                        let earlier = before.input_hash_map@[j as usize];
                        assert(earlier == row_hash::<Self, 2>(pwds@, j));
                        assert(is_row_hash::<Self, 2>(pwds@, k as int, earlier));
                        assert(before.hash_out_map@.contains_key(earlier));
                        assert(earlier != h);
                        assert(table.input_hash_map@[j as usize] == earlier);
                        assert(table.input_enc_map@[j as usize] == before.input_enc_map@[j as usize]);
                        assert(table.hash_out_map@[earlier] == before.hash_out_map@[earlier]);
                        assert(Some(before.hash_out_map@[earlier]) == sealed_output::<Self>(
                            pwds@,
                            rows@,
                            j,
                        ));
                    } else {
                        assert(table.input_hash_map@[j as usize] == h);
                        assert(table.input_enc_map@[j as usize] == (left, right));
                        assert(table.hash_out_map@[h] == sealed);
                    }
                }
                assert forall|x: usize| #[trigger] table.input_hash_map@.contains_key(x) <==> x < k
                    + 1 by {
                    assert(before.input_hash_map@.contains_key(x) <==> x < k);
                }
                assert forall|x: usize| #[trigger] table.input_enc_map@.contains_key(x) <==> x < k
                    + 1 by {
                    assert(before.input_enc_map@.contains_key(x) <==> x < k);
                }
                assert forall|i: int, j: int| 0 <= i < j < k + 1 implies #[trigger] row_hash::<Self, 2>(
                    pwds@,
                    i,
                ) != #[trigger] row_hash::<Self, 2>(pwds@, j) by {
                    if j == k {
                        if row_hash::<Self, 2>(pwds@, i) == h {
                            assert(is_row_hash::<Self, 2>(pwds@, k as int, h));
                        }
                    }
                }
            }
            k += 1;
        }
        Ok(table)
    }
}

/// A gate given by its truth table, with the master secret that garbles it
/// under the simplest scheme: the one of `SimpleGarbledGate`.
#[derive(Debug, Clone)]
pub struct GarbledGate<G: Gate> {
    secret: u64,
    gate: G,
}

impl<G: Gate> GarbledGate<G> {
    /// What garbles `gate` under `secret`.
    pub fn new(secret: u64, gate: G) -> (garbled: Self)
        ensures
            garbled.spec_secret() == secret,
            garbled.spec_gate() == gate,
    {
        Self { secret, gate }
    }

    /// The master secret.
    pub closed spec fn spec_secret(&self) -> u64 {
        self.secret
    }

    /// What is garbled.
    pub closed spec fn spec_gate(&self) -> G {
        self.gate
    }

    /// The table of this gate garbled under its master secret.
    pub fn garble(&self) -> (res: Result<GarbledTable<u64, u64>, Error>)
        ensures
            res is Ok <==> can_seal::<Self>(
                Self::spec_gen_pwds(self.spec_secret(), 12),
                self.spec_gate().spec_table()@,
            ),
            res matches Err(e) ==> e == Error::ProtocolPrecondition,
            res matches Ok(table) ==> holds_sealed::<Self>(
                table,
                Self::spec_gen_pwds(self.spec_secret(), 12),
                self.spec_gate().spec_table()@,
                4,
            ),
    {
        Self::compute_garble_table(self.secret, &self.gate)
    }
}

impl<G: Gate> GarblingScheme for GarbledGate<G> {
    type Secret = u64;

    type Hash = u64;

    type SymmetricKey = u64;

    type Encrypted = u64;

    open spec fn spec_concat(first: u64, second: u64) -> u64 {
        SimpleGarbledGate::<2>::spec_concat(first, second)
    }

    open spec fn spec_hash(p: u64) -> u64 {
        SimpleGarbledGate::<2>::spec_hash(p)
    }

    open spec fn spec_encrypt_with(psswd: u64, output: Bit) -> u64 {
        SimpleGarbledGate::<2>::spec_encrypt_with(psswd, output)
    }

    open spec fn spec_decrypt_with(psswd: u64, value: u64) -> Bit {
        SimpleGarbledGate::<2>::spec_decrypt_with(psswd, value)
    }

    open spec fn spec_gen_pwds(sec: u64, count: nat) -> Seq<u64> {
        SimpleGarbledGate::<2>::spec_gen_pwds(sec, count)
    }

    proof fn lemma_hash_is_key() {
    }

    proof fn lemma_decrypt_with_inverts(psswd: u64, output: Bit) {
    }

    fn concat(first: u64, second: u64) -> (both: u64) {
        SimpleGarbledGate::<2>::concat(first, second)
    }

    fn hash(p: &u64) -> (h: u64) {
        SimpleGarbledGate::<2>::hash(p)
    }

    fn encrypt_with(psswd: u64, output: Bit) -> (value: u64) {
        SimpleGarbledGate::<2>::encrypt_with(psswd, output)
    }

    fn decrypt_with(psswd: u64, value: u64) -> (output: Bit) {
        SimpleGarbledGate::<2>::decrypt_with(psswd, value)
    }

    fn gen_pwds(sec: u64, count: usize) -> (pwds: Vec<u64>) {
        SimpleGarbledGate::<2>::gen_pwds(sec, count)
    }
}

impl<G: Gate> Garbled for GarbledGate<G> {

}

/// A sealed table answers for every pair of inputs: the entry under the
/// lookup key of the pair, decrypted under the pair's third secret, is the
/// output that the truth table names for the pair.
pub proof fn lemma_sealed_round_trip<S: GarblingScheme>(
    table: GarbledTable<S::Hash, S::Encrypted>,
    pwds: Seq<S::Secret>,
    rows: Seq<(Input, Bit)>,
    k: int,
)
    requires
        holds_sealed::<S>(table, pwds, rows, 4),
        0 <= k < 4,
    ensures
        table.hash_out_map@.contains_key(row_hash::<S, 2>(pwds, k)),
        found_output(rows, pair_of(k)) == Some(
            S::spec_decrypt_with(pwds[3 * k + 2], table.hash_out_map@[row_hash::<S, 2>(pwds, k)]),
        ),
{
    let h = table.input_hash_map@[k as usize];
    assert(h == row_hash::<S, 2>(pwds, k));
    assert(is_row_hash::<S, 2>(pwds, 4, h));
    assert(Some(table.hash_out_map@[h]) == sealed_output::<S>(pwds, rows, k));
    S::lemma_decrypt_with_inverts(pwds[3 * k + 2], found_output(rows, pair_of(k))->0);
}

} // verus!
