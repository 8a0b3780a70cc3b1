//! Factorization of 64-bit integers into primes (a deterministic
//! Miller-Rabin oracle and Pollard's rho driven by a SplitMix64 stream), and
//! AES-256 IGE encryption of zero-padded byte strings.
use vstd::prelude::*;

pub mod aesige;
pub mod factorizator;
pub mod fermat;
pub mod modarith;
pub mod primality;
pub mod splitmix;

use crate::aesige::{aes_ige_decrypt, aes_ige_encrypt, ige_decrypted, ige_encrypted, zero_padded};
use crate::factorizator::{ascending, factor, product};
use crate::primality::prime_oracle;

verus! {

/// The prime factors of `pq` with multiplicity, ascending; empty for `pq <= 1`.
pub fn tg_factorize(pq: u64) -> (r: Vec<u64>)
    ensures
        pq <= 1 ==> r@ == Seq::<u64>::empty(),
        pq > 1 ==> product(r@) == pq,
        ascending(r@),
        forall|i: int| 0 <= i < r@.len() ==> prime_oracle(#[trigger] r@[i]),
{
    factor(pq)
}

/// Copies a 32-byte slice into an array.
fn to_array32(s: &[u8]) -> (r: [u8; 32])
    requires
        s@.len() == 32,
    ensures
        r@ == s@,
{
    let mut a = [0u8; 32];
    let mut i: usize = 0;
    while i < 32
        invariant
            i <= 32,
            s@.len() == 32,
            a@.len() == 32,
            forall|k: int| 0 <= k < i ==> a@[k] == s@[k],
        decreases 32 - i,
    {
        a[i] = s[i];
        i = i + 1;
    }
    assert(a@ =~= s@);
    a
}

/// Encrypts `plain`, zero-padded to whole blocks, with AES-256 IGE under a
/// 32-byte key and a 32-byte initialization vector.
pub fn tg_encrypt_ige(plain: &[u8], key: &[u8], iv: &[u8]) -> (r: Vec<u8>)
    requires
        key@.len() == 32,
        iv@.len() == 32,
        plain@.len() + 16 <= usize::MAX,
    ensures
        r@ == ige_encrypted(key@, iv@, zero_padded(plain@)),
        ige_decrypted(key@, iv@, r@) == zero_padded(plain@),
{
    let key_array = to_array32(key);
    let iv_array = to_array32(iv);
    aes_ige_encrypt(plain, &key_array, &iv_array)
}

/// Decrypts `cipher`, zero-padded to whole blocks, with AES-256 IGE under a
/// 32-byte key and a 32-byte initialization vector.
pub fn tg_decrypt_ige(cipher: &[u8], key: &[u8], iv: &[u8]) -> (r: Vec<u8>)
    requires
        key@.len() == 32,
        iv@.len() == 32,
        cipher@.len() + 16 <= usize::MAX,
    ensures
        r@ == ige_decrypted(key@, iv@, zero_padded(cipher@)),
{
    let key_array = to_array32(key);
    let iv_array = to_array32(iv);
    aes_ige_decrypt(cipher, &key_array, &iv_array)
}

} // verus!
