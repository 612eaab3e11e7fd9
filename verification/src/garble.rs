use vstd::prelude::*;
use vstd::arithmetic::power2::{
    lemma_pow2_pos, lemma_pow2_strictly_increases, lemma_pow2_unfold, pow2,
};
use vstd::std_specs::hash::{obeys_key_model, DefaultHasherAdditionalSpecFns};
use std::collections::HashMap;
use std::hash::{DefaultHasher, Hash, Hasher};
use crate::bit::Bit;
use crate::encryption::{wrapped_difference, wrapped_sum};
use crate::error::Error;
use crate::gate::{bits_of, bits_value, word_range, Gate};

verus! {

/// What one party publishes about a gate: for every input combination the two
/// encrypted inputs and the lookup key made from them, and for every lookup
/// key the output.
///
/// The two maps over inputs are keyed by the packed input combination, first
/// input most significant.
#[derive(Clone, Debug)]
pub struct GarbledTable<H, E, const I: usize> {
    pub input_hash_map: HashMap<usize, H>,
    pub input_enc_map: HashMap<usize, (E, E)>,
    pub hash_out_map: HashMap<H, Bit>,
}

/// Whether `h` is the lookup key that `keys` has for one of the first `n`
/// packed inputs.
pub open spec fn is_lookup_key<H>(keys: Map<usize, H>, n: nat, h: H) -> bool {
    exists|k: usize| k < n && #[trigger] keys[k] == h
}

impl<H, E, const I: usize> GarbledTable<H, E, I> {
    /// What holds of a table that was built by garbling: every input
    /// combination, and nothing else, has a lookup key and a pair of
    /// encrypted inputs; no two combinations have the same lookup key; and
    /// the output map has an entry for every lookup key and for nothing else.
    pub open spec fn wf(&self) -> bool {
        let rows = pow2(I as nat);
        &&& forall|k: usize| #[trigger] self.input_hash_map@.contains_key(k) <==> k < rows
        &&& forall|k: usize| #[trigger] self.input_enc_map@.contains_key(k) <==> k < rows
        &&& forall|j: usize, k: usize|
            j < k < rows ==> #[trigger] self.input_hash_map@[j] != #[trigger] self.input_hash_map@[k]
        &&& forall|h: H| #[trigger]
            self.hash_out_map@.contains_key(h) <==> is_lookup_key(self.input_hash_map@, rows, h)
    }
}

/// The two encrypted inputs of row `k`, under the secrets `pwds[3k]` and
/// `pwds[3k + 1]`.
pub open spec fn row_codes<G: GarblingScheme, const I: usize>(pwds: Seq<G::Secret>, k: int) -> (
    G::Encrypted,
    G::Encrypted,
) {
    let inputs = bits_of(k as nat, I as nat);
    (
        G::spec_encrypt_with(pwds[3 * k], inputs[0]),
        G::spec_encrypt_with(pwds[3 * k + 1], inputs[1]),
    )
}

/// The lookup key of row `k`: the hash of its two encrypted inputs combined.
pub open spec fn row_hash<G: GarblingScheme, const I: usize>(pwds: Seq<G::Secret>, k: int) -> G::Hash {
    let (left, right) = row_codes::<G, I>(pwds, k);
    G::spec_hash(G::spec_concat(left, right))
}

/// Whether the derived secrets `pwds` garble a gate of `I` inputs: there are
/// two inputs to encrypt, three secrets for every row, and no two rows get
/// the same lookup key.
pub open spec fn can_garble<G: GarblingScheme, const I: usize>(pwds: Seq<G::Secret>) -> bool {
    &&& I >= 2
    &&& 3 * pow2(I as nat) <= usize::MAX
    &&& pwds.len() == 3 * pow2(I as nat)
    &&& forall|j: int, k: int|
        0 <= j < k < pow2(I as nat) ==> #[trigger] row_hash::<G, I>(pwds, j) != #[trigger] row_hash::<
            G,
            I,
        >(pwds, k)
}

/// Whether `h` is the lookup key of one of the first `n` rows.
pub open spec fn is_row_hash<G: GarblingScheme, const I: usize>(
    pwds: Seq<G::Secret>,
    n: int,
    h: G::Hash,
) -> bool {
    exists|k: int| 0 <= k < n && #[trigger] row_hash::<G, I>(pwds, k) == h
}

/// Whether `table` holds exactly the first `n` rows of `gate` garbled under
/// `pwds`.
pub open spec fn holds_rows<G: GarblingScheme, const I: usize>(
    table: GarbledTable<G::Hash, G::Encrypted, I>,
    pwds: Seq<G::Secret>,
    gate: Gate<I>,
    n: int,
) -> bool {
    &&& forall|k: usize| #[trigger] table.input_hash_map@.contains_key(k) <==> k < n
    &&& forall|k: usize| #[trigger] table.input_enc_map@.contains_key(k) <==> k < n
    &&& forall|h: G::Hash| #[trigger]
        table.hash_out_map@.contains_key(h) <==> is_row_hash::<G, I>(pwds, n, h)
    &&& forall|k: int|
        0 <= k < n ==> {
            &&& table.input_hash_map@[k as usize] == #[trigger] row_hash::<G, I>(pwds, k)
            &&& table.input_enc_map@[k as usize] == row_codes::<G, I>(pwds, k)
            &&& table.hash_out_map@[table.input_hash_map@[k as usize]] == gate@[k]
        }
}

/// A garbling scheme: how secrets are derived from a master secret, how a wire
/// value is encrypted under a secret, how two encrypted values are combined
/// and how the combination is hashed. Another key schedule or another cipher
/// is another implementation of this trait; the protocol stays as it is.
///
/// Each operation has a model, a spec function that says what it returns.
/// Encrypting, decrypting and combining are defined on all values; only the
/// derivation of secrets can come to an end.
pub trait GarblingScheme: Sized {
    type Secret: Copy;

    type Hash: Copy + Hash + Eq;

    type SymmetricKey;

    type Encrypted: Copy;

    /// What `concat` returns.
    spec fn spec_concat(first: Self::Encrypted, second: Self::Encrypted) -> Self::Encrypted;

    /// What `hash` returns.
    spec fn spec_hash(p: Self::Encrypted) -> Self::Hash;

    /// What `encrypt_with` returns.
    spec fn spec_encrypt_with(psswd: Self::Secret, output: Bit) -> Self::Encrypted;

    /// What `decrypt_with` returns.
    spec fn spec_decrypt_with(psswd: Self::Secret, value: Self::Encrypted) -> Bit;

    /// The first `count` secrets derived from `sec`, or fewer where the
    /// derivation ends early.
    spec fn spec_gen_pwds(sec: Self::Secret, count: nat) -> Seq<Self::Secret>;

    /// Hashes can key a hash map: equal hashes are the same value.
    proof fn lemma_hash_is_key()
        ensures
            obeys_key_model::<Self::Hash>(),
    ;

    /// A wire value that was encrypted comes back when it is decrypted under
    /// the same secret.
    proof fn lemma_decrypt_with_inverts(psswd: Self::Secret, output: Bit)
        ensures
            Self::spec_decrypt_with(psswd, Self::spec_encrypt_with(psswd, output)) == output,
    ;

    /// Two encrypted values combined into one; the order may matter.
    fn concat(first: Self::Encrypted, second: Self::Encrypted) -> (both: Self::Encrypted)
        ensures
            both == Self::spec_concat(first, second),
    ;

    /// The lookup key for a combined value.
    fn hash(p: &Self::Encrypted) -> (h: Self::Hash)
        ensures
            h == Self::spec_hash(*p),
    ;

    /// A wire value under a secret.
    fn encrypt_with(psswd: Self::Secret, output: Bit) -> (value: Self::Encrypted)
        ensures
            value == Self::spec_encrypt_with(psswd, output),
    ;

    /// The wire value that is under a secret in `value`.
    fn decrypt_with(psswd: Self::Secret, value: Self::Encrypted) -> (output: Bit)
        ensures
            output == Self::spec_decrypt_with(psswd, value),
    ;

    // Generate secrets from secret
    fn gen_pwds(sec: Self::Secret, count: usize) -> (pwds: Vec<Self::Secret>)
        ensures
            pwds@ == Self::spec_gen_pwds(sec, count as nat),
    ;
}

/// A gate of `I` inputs together with the master secret and the scheme that
/// garble it.
pub trait Garbled<const I: usize>: GarblingScheme {
    /// What `master_secret` returns.
    spec fn spec_master_secret(&self) -> Self::Secret;

    /// What `gate` returns.
    spec fn spec_gate(&self) -> Gate<I>;

    fn master_secret(&self) -> (sec: Self::Secret)
        ensures
            sec == self.spec_master_secret(),
    ;

    fn gate(&self) -> (gate: &Gate<I>)
        ensures
            *gate == self.spec_gate(),
    ;

    /// Garbles this gate under its master secret.
    ///
    /// Three secrets are derived for every row, in row order: one for each of
    /// the first two inputs and one kept for the output. Row `k` is entered
    /// under its packed input `k` with its two encrypted inputs and with its
    /// lookup key, and the lookup key is entered with the row's output.
    ///
    /// Fails with `ProtocolPrecondition` where there are fewer than two
    /// inputs, the secrets run out, or two rows get one lookup key.
    fn compute_garble_table(&self) -> (res: Result<
        GarbledTable<Self::Hash, Self::Encrypted, I>,
        Error,
    >)
        ensures
            res is Ok <==> can_garble::<Self, I>(
                Self::spec_gen_pwds(self.spec_master_secret(), 3 * pow2(I as nat)),
            ),
            res matches Err(e) ==> e == Error::ProtocolPrecondition,
            res matches Ok(table) ==> table.wf() && holds_rows::<Self, I>(
                table,
                Self::spec_gen_pwds(self.spec_master_secret(), 3 * pow2(I as nat)),
                self.spec_gate(),
                pow2(I as nat) as int,
            ),
    {
        let gate = self.gate();
        let rows = gate.table();
        let n = rows.len();
        if I < 2 {
            return Err(Error::ProtocolPrecondition);
        }
        let count = match n.checked_mul(3) {
            Some(count) => count,
            None => {
                return Err(Error::ProtocolPrecondition);
            },
        };
        let pwds = Self::gen_pwds(self.master_secret(), count);
        if pwds.len() != count {
            return Err(Error::ProtocolPrecondition);
        }
        let mut table = GarbledTable {
            input_hash_map: HashMap::<usize, Self::Hash>::new(),
            input_enc_map: HashMap::<usize, (Self::Encrypted, Self::Encrypted)>::new(),
            hash_out_map: HashMap::<Self::Hash, Bit>::new(),
        };
        proof {
            Self::lemma_hash_is_key();
        }
        let mut k: usize = 0;
        while k < n
            invariant
                k <= n,
                I >= 2,
                n == pow2(I as nat),
                pwds@.len() == 3 * n,
                pwds@ == Self::spec_gen_pwds(self.spec_master_secret(), 3 * pow2(I as nat)),
                3 * n <= usize::MAX,
                obeys_key_model::<Self::Hash>(),
                rows@.len() == n,
                gate@.len() == n,
                forall|j: int|
                    0 <= j < n ==> (#[trigger] rows@[j]).0@ == bits_of(j as nat, I as nat)
                        && rows@[j].1 == gate@[j],
                holds_rows::<Self, I>(table, pwds@, *gate, k as int),
                forall|i: int, j: int|
                    0 <= i < j < k ==> #[trigger] row_hash::<Self, I>(pwds@, i) != #[trigger] row_hash::<
                        Self,
                        I,
                    >(pwds@, j),
            decreases n - k,
        {
            let ghost before = table;
            let inputs = &rows[k].0;
            let out = rows[k].1;
            proof {
                crate::gate::lemma_bits_of_len(k as nat, I as nat);
            }
            let left = Self::encrypt_with(pwds[3 * k], inputs[0]);
            let right = Self::encrypt_with(pwds[3 * k + 1], inputs[1]);
            let both = Self::concat(left, right);
            let h = Self::hash(&both);
            assert(row_codes::<Self, I>(pwds@, k as int) == (left, right));
            assert(row_hash::<Self, I>(pwds@, k as int) == h);
            if table.hash_out_map.contains_key(&h) {
                proof {
                    let j = choose|j: int|
                        0 <= j < k && #[trigger] row_hash::<Self, I>(pwds@, j) == h;
                    assert(row_hash::<Self, I>(pwds@, j) == row_hash::<Self, I>(pwds@, k as int));
                }
                return Err(Error::ProtocolPrecondition);
            }
            table.input_hash_map.insert(k, h);
            table.input_enc_map.insert(k, (left, right));
            table.hash_out_map.insert(h, out);
            proof {
                assert forall|x: Self::Hash| #[trigger]
                    table.hash_out_map@.contains_key(x) <==> is_row_hash::<Self, I>(
                        pwds@,
                        k + 1,
                        x,
                    ) by {
                    if x == h {
                        assert(row_hash::<Self, I>(pwds@, k as int) == x);
                    } else {
                        if is_row_hash::<Self, I>(pwds@, k + 1, x) {
                            let j = choose|j: int|
                                0 <= j < k + 1 && #[trigger] row_hash::<Self, I>(pwds@, j) == x;
                            assert(j < k);
                            assert(is_row_hash::<Self, I>(pwds@, k as int, x));
                        }
                        if before.hash_out_map@.contains_key(x) {
                            assert(is_row_hash::<Self, I>(pwds@, k as int, x));
                            let j = choose|j: int|
                                0 <= j < k && #[trigger] row_hash::<Self, I>(pwds@, j) == x;
                            assert(0 <= j < k + 1);
                        }
                    }
                }
                assert forall|j: int| 0 <= j < k + 1 implies {
                    &&& table.input_hash_map@[j as usize] == #[trigger] row_hash::<Self, I>(
                        pwds@,
                        j,
                    )
                    &&& table.input_enc_map@[j as usize] == row_codes::<Self, I>(pwds@, j)
                    &&& table.hash_out_map@[table.input_hash_map@[j as usize]] == gate@[j]
                } by {
                    if j < k {
                        let earlier = before.input_hash_map@[j as usize];
                        assert(earlier == row_hash::<Self, I>(pwds@, j));
                        assert(is_row_hash::<Self, I>(pwds@, k as int, earlier));
                        assert(before.hash_out_map@.contains_key(earlier));
                        assert(earlier != h);
                        assert(table.input_hash_map@[j as usize] == earlier);
                        assert(table.input_enc_map@[j as usize] == before.input_enc_map@[j as usize]);
                        assert(table.hash_out_map@[earlier] == before.hash_out_map@[earlier]);
                        assert(before.hash_out_map@[earlier] == gate@[j]);
                    } else {
                        assert(table.input_hash_map@[j as usize] == h);
                        assert(table.input_enc_map@[j as usize] == (left, right));
                        assert(table.hash_out_map@[h] == out);
                    }
                }
                assert forall|x: usize| #[trigger] table.input_hash_map@.contains_key(x) <==> x < k
                    + 1 by {
                    assert(before.input_hash_map@.contains_key(x) <==> x < k);
                }
                assert forall|x: usize| #[trigger] table.input_enc_map@.contains_key(x) <==> x < k
                    + 1 by {
                    assert(before.input_enc_map@.contains_key(x) <==> x < k);
                }
                assert forall|i: int, j: int| 0 <= i < j < k + 1 implies #[trigger] row_hash::<Self, I>(
                    pwds@,
                    i,
                ) != #[trigger] row_hash::<Self, I>(pwds@, j) by {
                    if j == k {
                        if row_hash::<Self, I>(pwds@, i) == h {
                            assert(is_row_hash::<Self, I>(pwds@, k as int, h));
                        }
                    }
                }
            }
            k += 1;
        }
        proof {
            lemma_garbled_is_wf::<Self, I>(table, pwds@, *gate);
        }
        Ok(table)
    }
}

} // verus!


verus! {

/// What a default hasher of the standard library has taken in after a `u64`
/// was fed to one that had taken in `before`.
///
/// The standard library does not say which bytes a number is fed as, nor how
/// its default hasher digests them, so nothing is said here of what this is
/// on given values: only that, in one build of the library, it depends on
/// nothing but `before` and `v`.
pub uninterp spec fn fed_u64(before: Seq<Seq<u8>>, v: u64) -> Seq<Seq<u8>>;

/// `<u64 as std::hash::Hash>::hash` with a `DefaultHasher` as the hasher.
///
/// Not verified. The contract claims that what the hasher has taken in
/// afterwards depends only on what it had taken in before and on the number
/// fed to it, and calls it `fed_u64`. The hasher is one made by
/// `DefaultHasher::new`, of which the standard library says that all of them
/// are the same.
#[verifier::external_body]
fn feed_u64(state: &mut DefaultHasher, v: u64)
    ensures
        final(state)@ == fed_u64(old(state)@, v),
{
    v.hash(state);
}

/// The digest of a number: what a fresh default hasher gives after the number
/// was fed to it.
pub open spec fn digest(v: u64) -> u64 {
    DefaultHasher::spec_finish(fed_u64(Seq::empty(), v))
}

/// The secret that follows `a` in the key schedule, `11 a + 3`; `None` where
/// that leaves the range of `u64`.
pub open spec fn next_secret(a: u64) -> Option<u64> {
    if a * 11 + 3 <= u64::MAX {
        Some((a * 11 + 3) as u64)
    } else {
        None
    }
}

/// The first `count` secrets that follow `sec`, or as many as stay in range.
pub open spec fn key_schedule(sec: u64, count: nat) -> Seq<u64>
    decreases count,
{
    if count == 0 {
        Seq::empty()
    } else {
        match next_secret(sec) {
            Some(next) => seq![next] + key_schedule(next, (count - 1) as nat),
            None => Seq::empty(),
        }
    }
}

/// A gate garbled with the simplest scheme there is: secrets from the
/// recurrence `11 a + 3`, encryption and combination by addition modulo
/// `2^64`, and the standard library's default hasher. It hides nothing; it
/// shows the protocol.
pub struct SimpleGarbledGate<const I: usize> {
    /// master secret
    master_secret: u64,
    /// what is garbled
    gate: Gate<I>,
}

impl<const I: usize> SimpleGarbledGate<I> {
    /// What garbles `gate` under `master_secret`.
    pub fn new(master_secret: u64, gate: Gate<I>) -> (garbled: Self)
        ensures
            garbled.spec_master_secret() == master_secret,
            garbled.spec_gate() == gate,
    {
        Self { master_secret, gate }
    }
}

impl<const I: usize> GarblingScheme for SimpleGarbledGate<I> {
    type Secret = u64;

    type Hash = u64;

    type SymmetricKey = u64;

    type Encrypted = u64;

    open spec fn spec_concat(first: u64, second: u64) -> u64 {
        wrapped_sum(first, second)
    }

    open spec fn spec_hash(p: u64) -> u64 {
        digest(p)
    }

    open spec fn spec_encrypt_with(psswd: u64, output: Bit) -> u64 {
        wrapped_sum(psswd, output.value() as u64)
    }

    open spec fn spec_decrypt_with(psswd: u64, value: u64) -> Bit {
        Bit::of_nat(wrapped_difference(value, psswd) as nat)
    }

    open spec fn spec_gen_pwds(sec: u64, count: nat) -> Seq<u64> {
        key_schedule(sec, count)
    }

    proof fn lemma_hash_is_key() {
    }

    proof fn lemma_decrypt_with_inverts(psswd: u64, output: Bit) {
    }

    fn concat(first: u64, second: u64) -> (both: u64) {
        first.wrapping_add(second)
    }

    fn hash(p: &u64) -> (h: u64) {
        let mut hasher = DefaultHasher::new();
        feed_u64(&mut hasher, *p);
        hasher.finish()
    }

    // A very basic encrypt
    fn encrypt_with(psswd: u64, output: Bit) -> (value: u64) {
        psswd.wrapping_add(output.as_u64())
    }

    // A very basic decrypt
    fn decrypt_with(psswd: u64, value: u64) -> (output: Bit) {
        Bit::from_u64(value.wrapping_sub(psswd))
    }

    fn gen_pwds(sec: u64, count: usize) -> (pwds: Vec<u64>) {
        let mut pwds: Vec<u64> = Vec::new();
        let mut current = sec;
        let mut made: usize = 0;
        assert(pwds@ + key_schedule(current, (count - made) as nat) =~= key_schedule(
            sec,
            count as nat,
        ));
        while made < count
            invariant
                made <= count,
                pwds@ + key_schedule(current, (count - made) as nat) == key_schedule(
                    sec,
                    count as nat,
                ),
            decreases count - made,
        {
            let next = match current.checked_mul(11) {
                Some(scaled) => scaled.checked_add(3),
                None => None,
            };
            match next {
                Some(next) => {
                    assert(next_secret(current) == Some(next));
                    assert(pwds@.push(next) + key_schedule(next, (count - made - 1) as nat)
                        =~= pwds@ + key_schedule(current, (count - made) as nat));
                    pwds.push(next);
                    current = next;
                },
                None => {
                    assert(next_secret(current) is None);
                    assert(pwds@ + key_schedule(current, (count - made) as nat) =~= pwds@);
                    return pwds;
                },
            }
            made += 1;
        }
        assert(pwds@ + key_schedule(current, 0) =~= pwds@);
        pwds
    }
}

impl<const I: usize> Garbled<I> for SimpleGarbledGate<I> {
    closed spec fn spec_master_secret(&self) -> u64 {
        self.master_secret
    }

    closed spec fn spec_gate(&self) -> Gate<I> {
        self.gate
    }

    fn master_secret(&self) -> (sec: u64) {
        self.master_secret
    }

    fn gate(&self) -> (gate: &Gate<I>) {
        &self.gate
    }
}

} // verus!

verus! {

/// What the party that revealed its bit hands over: the encrypted input pairs
/// of the rows that agree with the bit, in increasing order of the remaining
/// inputs, and the map from lookup key to output, whole and in no order.
#[derive(Clone, Debug)]
pub struct PartialAppliedGarbledTable<H, E> {
    pub inps_sorted: Vec<(E, E)>,
    pub hash_outputs: HashMap<H, Bit>,
}

/// The packed input whose first bit is `inp` and whose other bits spell `rest`.
pub open spec fn revealed_key<const I: usize>(inp: Bit, rest: int) -> usize {
    (inp.value() * pow2((I - 1) as nat) + rest) as usize
}

/// The packed inputs that `keys` holds and whose first of `I` bits is `inp`,
/// in increasing order.
pub open spec fn revealed_keys<const I: usize>(keys: Set<usize>, inp: Bit) -> Seq<usize> {
    Seq::new(pow2((I - 1) as nat), |rest: int| revealed_key::<I>(inp, rest)).filter(
        |key: usize| keys.contains(key),
    )
}

/// Whether inputs of `I` bits have a first bit and pack into a `usize`.
pub open spec fn packs<const I: usize>() -> bool {
    I >= 1 && pow2(I as nat) <= word_range()
}

/// Filtering a sequence with one more element at its end.
proof fn lemma_filter_push<A>(s: Seq<A>, x: A, pred: spec_fn(A) -> bool)
    ensures
        s.push(x).filter(pred) == (if pred(x) {
            s.filter(pred).push(x)
        } else {
            s.filter(pred)
        }),
{
    reveal(Seq::filter);
    assert(s.push(x).drop_last() =~= s);
}

/// `2^(I - 1)`, the number of rows that agree with a revealed bit; `None`
/// where inputs of `I` bits do not pack.
fn half_rows<const I: usize>() -> (half: Option<usize>)
    ensures
        half is Some <==> packs::<I>(),
        half matches Some(h) ==> h == pow2((I - 1) as nat) && 2 * h <= word_range(),
{
    proof {
        vstd::arithmetic::power2::lemma2_to64();
        vstd::arithmetic::power2::lemma2_to64_rest();
    }
    if I == 0 {
        return None;
    }
    let mut size: usize = 1;
    let mut done: usize = 1;
    while done < I
        invariant
            1 <= done <= I,
            size == pow2((done - 1) as nat),
            2 * size <= word_range(),
        decreases I - done,
    {
        proof {
            lemma_pow2_unfold(done as nat);
            lemma_pow2_unfold((done + 1) as nat);
        }
        if size > usize::MAX / 2 {
            proof {
                // 2^(done + 1) is already too large, and 2^I is no smaller
                if done + 1 < I {
                    lemma_pow2_strictly_increases((done + 1) as nat, I as nat);
                }
            }
            return None;
        }
        size = size * 2;
        done += 1;
        proof {
            // a power of two that fits a word is at most half of the word range
            vstd::arithmetic::power2::lemma2_to64();
            vstd::arithmetic::power2::lemma2_to64_rest();
            if usize::BITS == 32 {
                if done - 1 >= 32 {
                    if done - 1 > 32 {
                        lemma_pow2_strictly_increases(32, (done - 1) as nat);
                    }
                }
                if done - 1 < 31 {
                    lemma_pow2_strictly_increases((done - 1) as nat, 31);
                }
            } else {
                if done - 1 >= 64 {
                    if done - 1 > 64 {
                        lemma_pow2_strictly_increases(64, (done - 1) as nat);
                    }
                }
                if done - 1 < 63 {
                    lemma_pow2_strictly_increases((done - 1) as nat, 63);
                }
            }
        }
    }
    proof {
        lemma_pow2_unfold(I as nat);
    }
    Some(size)
}

impl<H: Copy + Eq + Hash, E: Copy, const I: usize> GarbledTable<H, E, I> {
    /// The part of the table for the party that holds the other inputs, once
    /// the first input `inp` is revealed.
    ///
    /// Of the inputs that have a lookup key, it keeps those whose first bit is
    /// `inp`, and lists their encrypted pairs in increasing order of the
    /// packed input: for two inputs, the row for second input 0, then the row
    /// for second input 1. The map from lookup key to output is handed on whole.
    ///
    /// Fails with `OutOfRangeIndex` where inputs of `I` bits have no first bit
    /// or do not pack into a `usize`, and with `ProtocolPrecondition` where an
    /// input that is kept has no encrypted pair.
    pub fn get_partial_applied_table(&self, inp: Bit) -> (res: Result<
        PartialAppliedGarbledTable<H, E>,
        Error,
    >)
        ensures
            !packs::<I>() ==> res == Err::<PartialAppliedGarbledTable<H, E>, Error>(
                Error::OutOfRangeIndex,
            ),
            packs::<I>() && self.wf() ==> res is Ok && res->Ok_0.inps_sorted@.len() == pow2(
                (I - 1) as nat,
            ),
            packs::<I>() ==> {
                let keys = revealed_keys::<I>(self.input_hash_map@.dom(), inp);
                let paired = forall|i: int|
                    0 <= i < keys.len() ==> self.input_enc_map@.contains_key(#[trigger] keys[i]);
                &&& res is Ok <==> paired
                &&& res matches Err(e) ==> e == Error::ProtocolPrecondition
                &&& res matches Ok(part) ==> {
                    &&& part.inps_sorted@ == keys.map_values(|key: usize| self.input_enc_map@[key])
                    &&& part.hash_outputs@ == self.hash_out_map@
                }
            },
    {
        let half = match half_rows::<I>() {
            Some(half) => half,
            None => {
                return Err(Error::OutOfRangeIndex);
            },
        };
        let base: usize = match inp {
            Bit::Zero => 0,
            Bit::One => half,
        };
        let mut inps: Vec<(E, E)> = Vec::new();
        let ghost pick = |rest: int| revealed_key::<I>(inp, rest);
        let ghost held = |key: usize| self.input_hash_map@.dom().contains(key);
        let ghost pair_of = |key: usize| self.input_enc_map@[key];
        let ghost mut kept: Seq<usize> = Seq::empty();
        let mut rest: usize = 0;
        proof {
            assert(base == inp.value() * half) by (nonlinear_arith)
                requires
                    base == (if inp.value() == 0 { 0 } else { half as int }),
                    inp.value() <= 1,
            ;
            assert(Seq::new(0, pick).filter(held) =~= Seq::<usize>::empty()) by {
                reveal(Seq::filter);
            }
            assert(kept.map_values(pair_of) =~= inps@);
        }
        while rest < half
            invariant
                rest <= half,
                half == pow2((I - 1) as nat),
                base == inp.value() * half,
                base + half <= word_range(),
                pick == |rest: int| revealed_key::<I>(inp, rest),
                held == |key: usize| self.input_hash_map@.dom().contains(key),
                pair_of == |key: usize| self.input_enc_map@[key],
                kept == Seq::new(rest as nat, pick).filter(held),
                forall|i: int|
                    0 <= i < kept.len() ==> self.input_enc_map@.contains_key(#[trigger] kept[i]),
                inps@ == kept.map_values(pair_of),
                packs::<I>(),
            decreases half - rest,
        {
            let key = base + rest;
            proof {
                assert(key == pick(rest as int));
                assert(Seq::new((rest + 1) as nat, pick) =~= Seq::new(rest as nat, pick).push(key));
                lemma_filter_push(Seq::new(rest as nat, pick), key, held);
            }
            if self.input_hash_map.contains_key(&key) {
                match self.input_enc_map.get(&key) {
                    Some(pair) => {
                        inps.push(*pair);
                        proof {
                            let longer = kept.push(key);
                            assert(longer.map_values(pair_of) =~= kept.map_values(pair_of).push(
                                pair_of(key),
                            ));
                            kept = longer;
                        }
                    },
                    None => {
                        proof {
                            // `key` is kept, at the place `kept.len()`, and has no pair
                            let all = Seq::new(half as nat, pick);
                            let seen = Seq::new((rest + 1) as nat, pick);
                            assert(all =~= seen + all.subrange(rest + 1, half as int));
                            Seq::filter_distributes_over_add(
                                seen,
                                all.subrange(rest + 1, half as int),
                                held,
                            );
                            let keys = revealed_keys::<I>(self.input_hash_map@.dom(), inp);
                            assert(keys == all.filter(held));
                            assert(seen.filter(held) == kept.push(key));
                            assert(keys[kept.len() as int] == key);
                        }
                        return Err(Error::ProtocolPrecondition);
                    },
                }
            }
            rest += 1;
        }
        proof {
            if self.wf() {
                lemma_revealed_keys_complete::<I>(self.input_hash_map@.dom(), inp);
            }
        }
        Ok(PartialAppliedGarbledTable { inps_sorted: inps, hash_outputs: self.hash_out_map.clone() })
    }
}

} // verus!

verus! {

/// A table that holds all rows of a gate, each under its own lookup key, is
/// well formed.
pub proof fn lemma_garbled_is_wf<G: GarblingScheme, const I: usize>(
    table: GarbledTable<G::Hash, G::Encrypted, I>,
    pwds: Seq<G::Secret>,
    gate: Gate<I>,
)
    requires
        holds_rows::<G, I>(table, pwds, gate, pow2(I as nat) as int),
        pow2(I as nat) <= usize::MAX,
        forall|j: int, k: int|
            0 <= j < k < pow2(I as nat) ==> #[trigger] row_hash::<G, I>(pwds, j) != #[trigger] row_hash::<
                G,
                I,
            >(pwds, k),
    ensures
        table.wf(),
{
    let rows = pow2(I as nat);
    let keys = table.input_hash_map@;
    assert forall|j: usize, k: usize| j < k < rows implies #[trigger] keys[j] != #[trigger] keys[k] by {
        assert(keys[j] == row_hash::<G, I>(pwds, j as int));
        assert(keys[k] == row_hash::<G, I>(pwds, k as int));
    }
    assert forall|h: G::Hash| #[trigger]
        table.hash_out_map@.contains_key(h) <==> is_lookup_key(keys, rows, h) by {
        if table.hash_out_map@.contains_key(h) {
            assert(is_row_hash::<G, I>(pwds, rows as int, h));
            let k = choose|k: int| 0 <= k < rows && #[trigger] row_hash::<G, I>(pwds, k) == h;
            assert(keys[k as usize] == row_hash::<G, I>(pwds, k));
            assert(keys[k as usize] == h);
        }
        if is_lookup_key(keys, rows, h) {
            let k = choose|k: usize| k < rows && #[trigger] keys[k] == h;
            assert(keys[k] == row_hash::<G, I>(pwds, k as int));
            assert(is_row_hash::<G, I>(pwds, rows as int, h));
        }
    }
}

/// A garbled table answers for every input combination: its first two
/// inputs encrypted under the secrets of its row, combined and hashed, are a
/// key of the output map, and the entry under that key is what `gate` gives
/// for the combination.
pub proof fn lemma_garbled_round_trip<G: GarblingScheme, const I: usize>(
    table: GarbledTable<G::Hash, G::Encrypted, I>,
    pwds: Seq<G::Secret>,
    gate: Gate<I>,
    input: Seq<Bit>,
)
    requires
        gate.wf(),
        holds_rows::<G, I>(table, pwds, gate, pow2(I as nat) as int),
        input.len() == I,
    ensures
        table.hash_out_map@.contains_key(row_hash::<G, I>(pwds, bits_value(input) as int)),
        table.hash_out_map@[row_hash::<G, I>(pwds, bits_value(input) as int)]
            == gate.spec_evaluate(input),
        bits_of(bits_value(input), I as nat) == input,
{
    let k = bits_value(input) as int;
    crate::gate::lemma_bits_value_bound(input);
    crate::gate::lemma_bits_of_value(input);
    let h = table.input_hash_map@[k as usize];
    assert(h == row_hash::<G, I>(pwds, k));
    assert(is_row_hash::<G, I>(pwds, pow2(I as nat) as int, h));
}

/// The first of the `width` low bits of a number below `2^width` is the
/// number divided by `2^(width - 1)`.
pub proof fn lemma_first_bit(value: nat, width: nat)
    requires
        width >= 1,
        value < pow2(width),
    ensures
        bits_of(value, width).len() == width,
        bits_of(value, width)[0] == Bit::of_nat(value / pow2((width - 1) as nat)),
        value / pow2((width - 1) as nat) <= 1,
    decreases width,
{
    crate::gate::lemma_bits_of_len(value, width);
    crate::gate::lemma_bits_of_len(value / 2, (width - 1) as nat);
    lemma_pow2_unfold(width);
    lemma_pow2_pos((width - 1) as nat);
    let half = pow2((width - 1) as nat) as int;
    if width == 1 {
        assert(pow2(0) == 1) by {
            vstd::arithmetic::power2::lemma2_to64();
        }
    } else {
        lemma_first_bit(value / 2, (width - 1) as nat);
        lemma_pow2_unfold((width - 1) as nat);
        lemma_pow2_pos((width - 2) as nat);
        let quarter = pow2((width - 2) as nat) as int;
        assert(half == 2 * quarter);
        vstd::arithmetic::div_mod::lemma_div_denominator(value as int, 2, quarter);
        assert(2 * quarter == quarter * 2) by (nonlinear_arith);
        assert((value as int / 2) / quarter == value as int / half);
    }
    assert(value as int / half <= 1) by (nonlinear_arith)
        requires
            0 <= value < 2 * half,
            half > 0,
    ;
}

/// What `revealed_keys` keeps of the first `n` candidates: keys that are
/// held, each in the candidates' range, in strictly increasing order, and all
/// of the held candidates.
proof fn lemma_kept_candidates<const I: usize>(keys: Set<usize>, inp: Bit, n: nat)
    requires
        packs::<I>(),
        n <= pow2((I - 1) as nat),
    ensures
        ({
            let base = inp.value() * pow2((I - 1) as nat);
            let kept = Seq::new(n, |rest: int| revealed_key::<I>(inp, rest)).filter(
                |key: usize| keys.contains(key),
            );
            &&& base + pow2((I - 1) as nat) <= pow2(I as nat)
            &&& forall|i: int|
                0 <= i < kept.len() ==> keys.contains(#[trigger] kept[i]) && base <= kept[i] < base
                    + n
            &&& forall|i: int, j: int| 0 <= i < j < kept.len() ==> kept[i] < kept[j]
            &&& forall|rest: int|
                0 <= rest < n && keys.contains((base + rest) as usize) ==> kept.contains(
                    #[trigger] ((base + rest) as usize),
                )
        }),
    decreases n,
{
    let half = pow2((I - 1) as nat);
    let base = inp.value() * half;
    let pick = |rest: int| revealed_key::<I>(inp, rest);
    let held = |key: usize| keys.contains(key);
    lemma_pow2_unfold(I as nat);
    assert(base + half <= pow2(I as nat)) by (nonlinear_arith)
        requires
            base == inp.value() * half,
            inp.value() <= 1,
            pow2(I as nat) == 2 * half,
    ;
    if n == 0 {
        assert(Seq::new(0, pick).filter(held) =~= Seq::<usize>::empty()) by {
            reveal(Seq::filter);
        }
    } else {
        let m = (n - 1) as nat;
        lemma_kept_candidates::<I>(keys, inp, m);
        let before = Seq::new(m, pick).filter(held);
        let last = pick(m as int);
        assert(last == base + m);
        assert(Seq::new(n, pick) =~= Seq::new(m, pick).push(last));
        lemma_filter_push(Seq::new(m, pick), last, held);
        let kept = Seq::new(n, pick).filter(held);
        assert forall|rest: int|
            0 <= rest < n && keys.contains((base + rest) as usize) implies kept.contains(
            #[trigger] ((base + rest) as usize),
        ) by {
            if rest < m {
                assert(before.contains((base + rest) as usize));
                let i = choose|i: int| 0 <= i < before.len() && before[i] == (base + rest) as usize;
                assert(kept[i] == (base + rest) as usize);
            } else {
                assert(kept[kept.len() - 1] == last);
            }
        }
    }
}

/// Which rows a partial table has, and in what order: exactly the inputs that
/// have a lookup key and whose first bit is the revealed one, each once, in
/// increasing order of the packed input. So there are as many rows as there
/// are such inputs, and the order is the same whenever it is asked for.
pub proof fn lemma_revealed_keys<const I: usize>(keys: Set<usize>, inp: Bit)
    requires
        packs::<I>(),
    ensures
        ({
            let kept = revealed_keys::<I>(keys, inp);
            let wanted = Set::new(
                |key: usize|
                    keys.contains(key) && key < pow2(I as nat) && bits_of(key as nat, I as nat)[0]
                        == inp,
            );
            &&& forall|i: int, j: int| 0 <= i < j < kept.len() ==> kept[i] < kept[j]
            &&& kept.to_set() == wanted
            &&& wanted.finite()
            &&& kept.len() == wanted.len()
        }),
{
    let half = pow2((I - 1) as nat);
    let base = inp.value() * half;
    let kept = revealed_keys::<I>(keys, inp);
    let wanted = Set::new(
        |key: usize|
            keys.contains(key) && key < pow2(I as nat) && bits_of(key as nat, I as nat)[0] == inp,
    );
    lemma_kept_candidates::<I>(keys, inp, half);
    lemma_pow2_pos((I - 1) as nat);
    lemma_pow2_unfold(I as nat);
    assert forall|key: usize| kept.to_set().contains(key) <==> wanted.contains(key) by {
        if kept.to_set().contains(key) {
            let i = choose|i: int| 0 <= i < kept.len() && kept[i] == key;
            assert(keys.contains(kept[i]) && base <= kept[i] < base + half);
            lemma_first_bit(key as nat, I as nat);
            assert(key as int / half as int == inp.value()) by (nonlinear_arith)
                requires
                    base <= key < base + half,
                    base == inp.value() * half,
                    half > 0,
            ;
        }
        if wanted.contains(key) {
            lemma_first_bit(key as nat, I as nat);
            let q = key as int / half as int;
            assert(Bit::of_nat(q as nat) == inp);
            assert(q == inp.value());
            vstd::arithmetic::div_mod::lemma_fundamental_div_mod(key as int, half as int);
            let rest = key as int % half as int;
            assert(key == base + rest) by (nonlinear_arith)
                requires
                    key as int == half * q + rest,
                    q == inp.value(),
                    base == inp.value() * half,
            ;
            assert(kept.contains((base + rest) as usize));
        }
    }
    assert(kept.to_set() =~= wanted);
    assert(kept.no_duplicates());
    kept.unique_seq_to_set();
}

/// Of a table that has a lookup key for every input, the partial table has
/// the row of every input whose first bit is the revealed one: `2^(I - 1)`
/// rows, the one at place `rest` being the input whose other bits spell `rest`.
pub proof fn lemma_revealed_keys_complete<const I: usize>(keys: Set<usize>, inp: Bit)
    requires
        packs::<I>(),
        forall|key: usize| key < pow2(I as nat) ==> keys.contains(key),
    ensures
        revealed_keys::<I>(keys, inp) == Seq::new(
            pow2((I - 1) as nat),
            |rest: int| revealed_key::<I>(inp, rest),
        ),
{
    let half = pow2((I - 1) as nat);
    let base = inp.value() * half;
    let all = Seq::new(half, |rest: int| revealed_key::<I>(inp, rest));
    let held = |key: usize| keys.contains(key);
    lemma_pow2_unfold(I as nat);
    assert(base + half <= pow2(I as nat)) by (nonlinear_arith)
        requires
            base == inp.value() * half,
            inp.value() <= 1,
            pow2(I as nat) == 2 * half,
    ;
    assert forall|i: int| 0 <= i < all.len() implies held(#[trigger] all[i]) by {
        assert(all[i] == base + i);
    }
    lemma_filter_keeps_all(all, held);
}

/// A filter that every element passes changes nothing.
proof fn lemma_filter_keeps_all<A>(s: Seq<A>, pred: spec_fn(A) -> bool)
    requires
        forall|i: int| 0 <= i < s.len() ==> pred(#[trigger] s[i]),
    ensures
        s.filter(pred) == s,
    decreases s.len(),
{
    reveal(Seq::filter);
    if s.len() > 0 {
        lemma_filter_keeps_all(s.drop_last(), pred);
        assert(s.drop_last().push(s.last()) =~= s);
    }
}

} // verus!
