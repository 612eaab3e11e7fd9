use vstd::prelude::*;
use std::hash::Hash;

verus! {

/// The sum of two numbers modulo `2^64`.
pub open spec fn wrapped_sum(a: u64, b: u64) -> u64 {
    if a + b > u64::MAX {
        (a + b - u64::MAX - 1) as u64
    } else {
        (a + b) as u64
    }
}

/// The difference of two numbers modulo `2^64`.
pub open spec fn wrapped_difference(a: u64, b: u64) -> u64 {
    if a < b {
        (a - b + u64::MAX + 1) as u64
    } else {
        (a - b) as u64
    }
}

/// An encryption keyed by a secret that its holder keeps.
///
/// `spec_encrypt` and `spec_decrypt` say what the two operations return.
/// Both are defined on every value, and each undoes the other.
pub trait EncryptionScheme: Sized {
    type Key: Hash;

    type Value;

    type EncryptedValue;

    /// What `encrypt` returns.
    spec fn spec_encrypt(&self, v: Self::Value) -> Self::EncryptedValue;

    /// What `decrypt` returns.
    spec fn spec_decrypt(&self, e: Self::EncryptedValue) -> Self::Value;

    /// The value under this party's secret.
    fn encrypt(&self, v: Self::Value) -> (e: Self::EncryptedValue)
        ensures
            e == self.spec_encrypt(v),
    ;

    /// The value that is under this party's secret in `e`.
    fn decrypt(&self, e: Self::EncryptedValue) -> (v: Self::Value)
        ensures
            v == self.spec_decrypt(e),
    ;

    /// What was encrypted comes back when it is decrypted.
    proof fn lemma_decrypt_inverts(&self, v: Self::Value)
        ensures
            self.spec_decrypt(self.spec_encrypt(v)) == v,
    ;

    /// What was decrypted comes back when it is encrypted.
    proof fn lemma_encrypt_inverts(&self, e: Self::EncryptedValue)
        ensures
            self.spec_encrypt(self.spec_decrypt(e)) == e,
    ;
}

/// An encryption whose layers commute: it makes no difference in which order
/// two parties put their layers on, and of a value under both layers either
/// party can take its own layer off and leave the value under the other's.
pub trait CommutativeScheme: EncryptionScheme<
    EncryptedValue = <Self as EncryptionScheme>::Value,
> {
    /// The layers of this party and of `other` give the same, whichever is
    /// put on first.
    proof fn lemma_layers_commute(&self, other: &Self, v: Self::Value)
        ensures
            other.spec_encrypt(self.spec_encrypt(v)) == self.spec_encrypt(other.spec_encrypt(v)),
    ;
}

/// Under the layers of `first` and then of `second`, the decryption of
/// `first` leaves the value under the layer of `second` alone, and the
/// decryption of `second` after it gives the value back.
pub proof fn lemma_layers_come_off<S: CommutativeScheme>(first: &S, second: &S, v: S::Value)
    ensures
        first.spec_decrypt(second.spec_encrypt(first.spec_encrypt(v))) == second.spec_encrypt(v),
        second.spec_decrypt(first.spec_decrypt(second.spec_encrypt(first.spec_encrypt(v)))) == v,
{
    first.lemma_layers_commute(second, v);
    first.lemma_decrypt_inverts(second.spec_encrypt(v));
    second.lemma_decrypt_inverts(v);
}

/// Encryption by adding the secret, decryption by subtracting it, both modulo
/// `2^64`. It hides nothing, and its layers commute.
pub struct SimpleEncryptionScheme(pub u64);

impl EncryptionScheme for SimpleEncryptionScheme {
    type Key = u64;

    type Value = u64;

    type EncryptedValue = u64;

    open spec fn spec_encrypt(&self, v: u64) -> u64 {
        wrapped_sum(self.0, v)
    }

    open spec fn spec_decrypt(&self, e: u64) -> u64 {
        wrapped_difference(e, self.0)
    }

    fn encrypt(&self, v: u64) -> (e: u64) {
        self.0.wrapping_add(v)
    }

    fn decrypt(&self, e: u64) -> (v: u64) {
        e.wrapping_sub(self.0)
    }

    proof fn lemma_decrypt_inverts(&self, v: u64) {
    }

    proof fn lemma_encrypt_inverts(&self, e: u64) {
    }
}

impl CommutativeScheme for SimpleEncryptionScheme {
    proof fn lemma_layers_commute(&self, other: &Self, v: u64) {
    }
}

} // verus!
