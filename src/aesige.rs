use aes::cipher::{block_padding::ZeroPadding, BlockDecryptMut, BlockEncryptMut, KeyIvInit};
use aes::Aes256;
use ige::{Decryptor, Encryptor};
use vstd::prelude::*;
use vstd::slice::slice_to_vec;

verus! {

/// Size in bytes of an AES block.
pub const BLOCK: usize = 16;

/// `s` followed by zero bytes up to the next multiple of the block size.
pub open spec fn zero_padded(s: Seq<u8>) -> Seq<u8> {
    s + Seq::new(((16 - s.len() % 16) % 16) as nat, |i: int| 0u8)
}

/// AES-256 in IGE mode applied to whole blocks `data` under `key` and `iv`.
pub uninterp spec fn ige_encrypted(key: Seq<u8>, iv: Seq<u8>, data: Seq<u8>) -> Seq<u8>;

/// AES-256 IGE decryption of whole blocks `data` under `key` and `iv`.
pub uninterp spec fn ige_decrypted(key: Seq<u8>, iv: Seq<u8>, data: Seq<u8>) -> Seq<u8>;

/// Pads `data` with zero bytes to a whole number of blocks.
pub fn zero_pad(data: Vec<u8>) -> (r: Vec<u8>)
    requires
        data@.len() + 16 <= usize::MAX,
    ensures
        r@ == zero_padded(data@),
{
    let mut data = data;
    let block: usize = BLOCK;
    let pad: usize = (block - (data.len() % block)) % block;
    let ghost orig = data@;
    let mut i: usize = 0;
    while i < pad
        invariant
            i <= pad,
            pad == (16 - orig.len() % 16) % 16,
            data@ == orig + Seq::new(i as nat, |j: int| 0u8),
            orig.len() + 16 <= usize::MAX,
        decreases pad - i,
    {
        data.push(0u8);
        i = i + 1;
        assert(data@ =~= orig + Seq::new(i as nat, |j: int| 0u8));
    }
    data
}

/// Relies on `ige::Encryptor<Aes256>` and `BlockEncryptMut::encrypt_padded_b2b_mut`
/// with `ZeroPadding`: on whole blocks and an output buffer of the same size it
/// adds no padding block and fills the buffer; and `ige::Decryptor` under the
/// same key and IV gives the blocks back.
#[verifier::external_body]
fn ige_encrypt_blocks(data: &Vec<u8>, key: &[u8; 32], iv: &[u8; 32]) -> (r: Vec<u8>)
    requires
        data@.len() % 16 == 0,
    ensures
        r@ == ige_encrypted(key@, iv@, data@),
        r@.len() == data@.len(),
        ige_decrypted(key@, iv@, r@) == data@,
{
    let mut out = vec![0u8; data.len()];
    Encryptor::<Aes256>::new(key.into(), iv.into())
        .encrypt_padded_b2b_mut::<ZeroPadding>(data, &mut out)
        .unwrap();
    out
}

/// Relies on `ige::Decryptor<Aes256>` and `BlockDecryptMut::decrypt_padded_b2b_mut`
/// with `ZeroPadding`: on whole blocks and an output buffer of the same size it
/// decrypts into the whole buffer (the unpadded slice it returns is not used).
#[verifier::external_body]
fn ige_decrypt_blocks(data: &Vec<u8>, key: &[u8; 32], iv: &[u8; 32]) -> (r: Vec<u8>)
    requires
        data@.len() % 16 == 0,
    ensures
        r@ == ige_decrypted(key@, iv@, data@),
        r@.len() == data@.len(),
{
    let mut out = vec![0u8; data.len()];
    Decryptor::<Aes256>::new(key.into(), iv.into())
        .decrypt_padded_b2b_mut::<ZeroPadding>(data, &mut out)
        .unwrap();
    out
}

/// Zero-pads `plaintext` to whole blocks and encrypts it with AES-256 in IGE
/// mode; the result keeps the padded length.
pub fn aes_ige_encrypt(plaintext: &[u8], key: &[u8; 32], iv: &[u8; 32]) -> (r: Vec<u8>)
    requires
        plaintext@.len() + 16 <= usize::MAX,
    ensures
        r@ == ige_encrypted(key@, iv@, zero_padded(plaintext@)),
        r@.len() == zero_padded(plaintext@).len(),
        ige_decrypted(key@, iv@, r@) == zero_padded(plaintext@),
{
    let padded = zero_pad(slice_to_vec(plaintext));
    ige_encrypt_blocks(&padded, key, iv)
}

/// Zero-pads `ciphertext` to whole blocks and decrypts it with AES-256 in IGE
/// mode; the result keeps the padded length, trailing zeros included.
pub fn aes_ige_decrypt(ciphertext: &[u8], key: &[u8; 32], iv: &[u8; 32]) -> (r: Vec<u8>)
    requires
        ciphertext@.len() + 16 <= usize::MAX,
    ensures
        r@ == ige_decrypted(key@, iv@, zero_padded(ciphertext@)),
        r@.len() == zero_padded(ciphertext@).len(),
{
    let padded = zero_pad(slice_to_vec(ciphertext));
    ige_decrypt_blocks(&padded, key, iv)
}

/// Whole blocks need no padding.
pub proof fn lemma_zero_padded_whole_blocks(s: Seq<u8>)
    requires
        s.len() % 16 == 0,
    ensures
        zero_padded(s) == s,
{
    assert(zero_padded(s) =~= s);
}

/// Decrypting what `aes_ige_encrypt` returned, under the same key and IV,
/// gives back the zero-padded plaintext: the ciphertext `c` is whole blocks,
/// so `aes_ige_decrypt` pads nothing before it decrypts.
pub proof fn lemma_ige_round_trip(key: Seq<u8>, iv: Seq<u8>, plain: Seq<u8>, c: Seq<u8>)
    requires
        c.len() == zero_padded(plain).len(),
        ige_decrypted(key, iv, c) == zero_padded(plain),
    ensures
        ige_decrypted(key, iv, zero_padded(c)) == zero_padded(plain),
{
    assert(zero_padded(plain).len() % 16 == 0);
    lemma_zero_padded_whole_blocks(c);
}

} // verus!
