use aes::Aes256;
use block_padding::Pkcs7;
use cbc::{Decryptor, Encryptor};
use cipher::{BlockDecryptMut, BlockEncryptMut, KeyIvInit};
use vstd::prelude::*;

verus! {

/// AES-256-CBC encryption of `msg` under `key` and `iv`, padded with PKCS#7.
pub uninterp spec fn aes256_cbc_encrypted(key: Seq<u8>, iv: Seq<u8>, msg: Seq<u8>) -> Seq<u8>;

/// AES-256-CBC decryption of `data` under `key` and `iv` with the PKCS#7
/// padding removed, or `None` when the length or the padding is invalid.
pub uninterp spec fn aes256_cbc_decrypted(key: Seq<u8>, iv: Seq<u8>, data: Seq<u8>) -> Option<Seq<u8>>;

#[derive(Debug, PartialEq, Eq)]
pub enum Error {
    CiphertextTooSmall,
}

/// The AES-256 key and CBC initialization vector of the service.
pub struct CipherKey {
    pub key: [u8; 32],
    pub iv: [u8; 16],
}

/// Relies on cbc's `Encryptor::<Aes256>::encrypt_padded_vec_mut::<Pkcs7>`:
/// the ciphertext is a function of key, IV and message, and PKCS#7 always
/// pads to the next whole 16-byte block.
#[verifier::external_body]
fn aes_encrypt(key: &[u8; 32], iv: &[u8; 16], msg: &[u8]) -> (r: Vec<u8>)
    requires
        msg@.len() + 16 <= usize::MAX,
    ensures
        r@ == aes256_cbc_encrypted(key@, iv@, msg@),
        r@.len() == 16 * (msg@.len() / 16 + 1),
{
    Encryptor::<Aes256>::new(key.into(), iv.into()).encrypt_padded_vec_mut::<Pkcs7>(msg)
}

/// Relies on cbc's `Decryptor::<Aes256>::decrypt_padded_vec_mut::<Pkcs7>`:
/// the result is a function of key, IV and ciphertext, and an input whose
/// length is not a multiple of the block size is refused.
#[verifier::external_body]
fn aes_decrypt(key: &[u8; 32], iv: &[u8; 16], data: &[u8]) -> (r: Option<Vec<u8>>)
    ensures
        match r {
            Some(v) => aes256_cbc_decrypted(key@, iv@, data@) == Some(v@),
            None => aes256_cbc_decrypted(key@, iv@, data@) is None,
        },
        data@.len() % 16 != 0 ==> r is None,
{
    Decryptor::<Aes256>::new(key.into(), iv.into()).decrypt_padded_vec_mut::<Pkcs7>(data).ok()
}

/// Encrypt `data` with AES-256-CBC and PKCS#7 padding.
pub fn encrypt(key: &CipherKey, data: &[u8]) -> (r: Vec<u8>)
    requires
        data@.len() + 16 <= usize::MAX,
    ensures
        r@ == aes256_cbc_encrypted(key.key@, key.iv@, data@),
        r@.len() == 16 * (data@.len() / 16 + 1),
{
    aes_encrypt(&key.key, &key.iv, data)
}

/// Decrypt `data` with AES-256-CBC and remove the PKCS#7 padding.
pub fn decrypt(key: &CipherKey, data: &[u8]) -> (r: Result<Vec<u8>, Error>)
    ensures
        match r {
            Ok(v) => aes256_cbc_decrypted(key.key@, key.iv@, data@) == Some(v@),
            Err(e) => e == Error::CiphertextTooSmall && aes256_cbc_decrypted(key.key@, key.iv@, data@) is None,
        },
        data@.len() % 16 != 0 ==> r is Err,
{
    match aes_decrypt(&key.key, &key.iv, data) {
        Some(v) => Ok(v),
        None => Err(Error::CiphertextTooSmall),
    }
}

} // verus!
