use unf_encryption::keys::{public_key_digest, WireGuardPrivateKey, WireGuardPublicKey};

fn hex32(text: &str) -> [u8; 32] {
    let mut out = [0u8; 32];
    for (i, byte) in out.iter_mut().enumerate() {
        *byte = u8::from_str_radix(&text[2 * i..2 * i + 2], 16).expect("hex");
    }
    out
}

#[test]
fn private_key_derives_the_x25519_public_key() {
    let alice = hex32("77076d0a7318a57d3c16c17251b26645df4c2f87ebc0992ab177fba51db92c2a");
    let key = WireGuardPrivateKey::from_bytes(alice).expect("nonzero secret");
    assert_eq!(
        key.public_key().0,
        hex32("8520f0098930a754748b7ddcb43ef75a0dbf3a0d26381af4eba4a98eaa9b4e6a")
    );
    assert!(WireGuardPrivateKey::from_bytes([0; 32]).is_err());
}

#[test]
fn public_key_digest_is_domain_separated_sha256() {
    let digest = public_key_digest(WireGuardPublicKey([7; 32]));
    assert_eq!(
        digest.0,
        hex32("74034d00555221ae2bf98802494d483efcc499118469e05dba3802fa9ccd06c8")
    );
    assert_ne!(public_key_digest(WireGuardPublicKey([8; 32])).0, digest.0);
}
