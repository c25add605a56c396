//! WireGuard key material: public keys, their digests, and private keys whose
//! public half is derived by X25519.

use vstd::prelude::*;
use crate::digest::{all_zero, bytes32_is_zero, push_raw32, push_slice, raw_bytes, sha256, sha256_spec};
use vstd::utf8::encode_utf8;

verus! {

/// A WireGuard (Curve25519) public key.
#[derive(Clone, Copy, Debug)]
pub struct WireGuardPublicKey(pub [u8; 32]);

/// Domain-separated digest of one public key.
#[derive(Clone, Copy, Debug)]
pub struct EncryptionPublicKeyDigest(pub [u8; 32]);

pub const PUBLIC_KEY_DIGEST_DOMAIN: &'static str = "unf.wireguard-public-key.v1";

/// The X25519 public key derived from a 32-byte secret.
pub uninterp spec fn x25519_public_spec(secret: Seq<u8>) -> Seq<u8>;

/// Calls `x25519_dalek::PublicKey::from(&StaticSecret::from(secret))`, a
/// deterministic function of the 32 secret bytes (the secret is clamped and
/// multiplied by the base point).
#[verifier::external_body]
fn x25519_public_key_call(secret: &[u8; 32]) -> (public: [u8; 32])
    ensures
        public@ == x25519_public_spec(secret@),
{
    x25519_dalek::PublicKey::from(&x25519_dalek::StaticSecret::from(*secret)).to_bytes()
}

/// SHA-256 of the domain's UTF-8 bytes, a terminating zero byte, and the
/// raw key.
pub open spec fn public_key_digest_spec(key: Seq<u8>) -> Seq<u8> {
    sha256_spec(encode_utf8(PUBLIC_KEY_DIGEST_DOMAIN@) + seq![0u8] + raw_bytes(key))
}

/// Domain-separated digest of a public key.
pub fn public_key_digest(key: WireGuardPublicKey) -> (d: EncryptionPublicKeyDigest)
    ensures
        d.0@ == public_key_digest_spec(key.0@),
{
    let mut material: Vec<u8> = Vec::new();
    push_slice(&mut material, PUBLIC_KEY_DIGEST_DOMAIN.as_bytes());
    material.push(0u8);
    push_raw32(&mut material, &key.0);
    assert(material@ =~= encode_utf8(PUBLIC_KEY_DIGEST_DOMAIN@) + seq![0u8] + raw_bytes(key.0@));
    EncryptionPublicKeyDigest(sha256(&material))
}

/// A nonzero WireGuard private key. It has no `Debug` rendering and no public
/// field, so it only leaves the value through [`Self::expose_for_kernel`].
#[derive(Clone)]
pub struct WireGuardPrivateKey {
    bytes: [u8; 32],
}

impl WireGuardPrivateKey {
    /// The secret bytes.
    pub closed spec fn secret(&self) -> Seq<u8> {
        self.bytes@
    }

    pub open spec fn wf(&self) -> bool {
        !all_zero(self.secret())
    }

    /// Accepts any secret except the all-zero one.
    pub fn from_bytes(bytes: [u8; 32]) -> (r: Result<Self, crate::key_authority::KeyAuthorityError>)
        ensures
            match r {
                Ok(key) => key.secret() == bytes@ && key.wf(),
                Err(e) => e is InvalidPrivateKey,
            },
            r is Ok <==> !all_zero(bytes@),
    {
        if bytes32_is_zero(&bytes) {
            return Err(crate::key_authority::KeyAuthorityError::InvalidPrivateKey);
        }
        Ok(WireGuardPrivateKey { bytes })
    }

    /// An identical copy of this key.
    pub fn duplicate(&self) -> (r: Self)
        ensures
            r == *self,
    {
        WireGuardPrivateKey { bytes: self.bytes }
    }

    /// Whether the secret is nonzero (always true of a constructed key).
    pub fn is_nonzero(&self) -> (r: bool)
        ensures
            r == self.wf(),
    {
        !bytes32_is_zero(&self.bytes)
    }

    /// Returns the bytes solely for programming the local kernel provider.
    pub fn expose_for_kernel(&self) -> (r: &[u8; 32])
        ensures
            r@ == self.secret(),
    {
        &self.bytes
    }

    /// Keys with the same secret are the same key.
    pub proof fn lemma_same_secret(a: WireGuardPrivateKey, b: WireGuardPrivateKey)
        requires
            a.secret() == b.secret(),
        ensures
            a == b,
    {
        assert(a.bytes =~= b.bytes);
    }

    /// The X25519 public key of this secret.
    pub fn public_key(&self) -> (r: WireGuardPublicKey)
        ensures
            r.0@ == x25519_public_spec(self.secret()),
    {
        WireGuardPublicKey(x25519_public_key_call(&self.bytes))
    }
}

} // verus!
