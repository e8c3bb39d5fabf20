//! The handshake's cryptography, behind trusted wrappers around the `rsa`
//! crate. The keys are opaque to verified code; what the library proves is
//! how the state machines act on each possible outcome of these calls.

use rand::rngs::OsRng;
use rsa::pkcs1::{DecodeRsaPublicKey, EncodeRsaPublicKey};
use rsa::{Pkcs1v15Encrypt, RsaPrivateKey, RsaPublicKey};
use vstd::prelude::*;

verus! {

#[verifier::external_type_specification]
#[verifier::external_body]
pub struct ExRsaPrivateKey(RsaPrivateKey);

#[verifier::external_type_specification]
#[verifier::external_body]
pub struct ExRsaPublicKey(RsaPublicKey);

/// The fixed plaintext a client must send back encrypted to be admitted.
pub open spec fn challenge() -> Seq<u8> {
    seq![
        103u8, 97u8, 109u8, 101u8, 32u8, 99u8, 108u8, 105u8, 101u8, 110u8, 116u8, 32u8, 99u8,
        111u8, 110u8, 110u8, 101u8, 99u8, 116u8, 105u8, 111u8, 110u8,
    ]
}

/// The challenge plaintext, as bytes ("game client connection").
pub fn challenge_bytes() -> (r: Vec<u8>)
    ensures
        r@ == challenge(),
{
    let mut r: Vec<u8> = Vec::new();
    r.push(103);
    r.push(97);
    r.push(109);
    r.push(101);
    r.push(32);
    r.push(99);
    r.push(108);
    r.push(105);
    r.push(101);
    r.push(110);
    r.push(116);
    r.push(32);
    r.push(99);
    r.push(111);
    r.push(110);
    r.push(110);
    r.push(101);
    r.push(99);
    r.push(116);
    r.push(105);
    r.push(111);
    r.push(110);
    proof {
        assert(r@ =~= challenge());
    }
    r
}

/// Whether a decrypted plaintext is exactly the fixed challenge.
pub fn challenge_matches(p: &Vec<u8>) -> (r: bool)
    ensures
        r == (p@ == challenge()),
{
    let c = challenge_bytes();
    if p.len() != c.len() {
        proof {
            assert(p@ != challenge());
        }
        return false;
    }
    let mut i: usize = 0;
    while i < c.len()
        invariant
            i <= c.len(),
            p@.len() == c@.len(),
            c@ == challenge(),
            forall|j: int| 0 <= j < i ==> p@[j] == c@[j],
        decreases c.len() - i,
    {
        if p[i] != c[i] {
            proof {
                assert(p@ != challenge());
            }
            return false;
        }
        i = i + 1;
    }
    proof {
        assert(p@ =~= challenge());
    }
    true
}

/// Relies on `RsaPrivateKey::new`: key generation from the operating
/// system's randomness, `Err` rather than a panic when generation fails.
#[verifier::external_body]
pub(crate) fn rsa_generate_key(bits: usize) -> (r: Option<RsaPrivateKey>)
    requires
        128 <= bits <= 4096,
{
    let mut rng = OsRng;
    match RsaPrivateKey::new(&mut rng, bits) {
        Ok(k) => Some(k),
        Err(_) => None,
    }
}

/// Relies on `RsaPublicKey::from`: the public half of a private key.
#[verifier::external_body]
pub(crate) fn rsa_public_key_of(sk: &RsaPrivateKey) -> (r: RsaPublicKey) {
    RsaPublicKey::from(sk)
}

/// Relies on `EncodeRsaPublicKey::to_pkcs1_der`: a public key as DER bytes.
#[verifier::external_body]
pub(crate) fn rsa_public_key_der(pk: &RsaPublicKey) -> (r: Option<Vec<u8>>) {
    match pk.to_pkcs1_der() {
        Ok(doc) => Some(doc.as_bytes().to_vec()),
        Err(_) => None,
    }
}

/// Relies on `RsaPublicKey::from_pkcs1_der`: a public key parsed back out
/// of DER bytes, `Err` on malformed input.
#[verifier::external_body]
pub(crate) fn rsa_public_key_from_der(der: &[u8]) -> (r: Option<RsaPublicKey>) {
    match RsaPublicKey::from_pkcs1_der(der) {
        Ok(k) => Some(k),
        Err(_) => None,
    }
}

/// Relies on `RsaPublicKey::encrypt` with PKCS#1 v1.5 padding: randomized,
/// `Err` (not a panic) when the message is too long for the key.
#[verifier::external_body]
pub(crate) fn rsa_encrypt(pk: &RsaPublicKey, msg: &[u8]) -> (r: Option<Vec<u8>>) {
    let mut rng = OsRng;
    match pk.encrypt(&mut rng, Pkcs1v15Encrypt, msg) {
        Ok(ct) => Some(ct),
        Err(_) => None,
    }
}

/// Relies on `RsaPrivateKey::decrypt` with PKCS#1 v1.5 padding: `Err` (not a
/// panic) when the ciphertext does not decrypt under this key.
#[verifier::external_body]
pub(crate) fn rsa_decrypt(sk: &RsaPrivateKey, ct: &[u8]) -> (r: Option<Vec<u8>>) {
    match sk.decrypt(Pkcs1v15Encrypt, ct) {
        Ok(p) => Some(p),
        Err(_) => None,
    }
}

} // verus!
