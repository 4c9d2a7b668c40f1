//! Key derivation: the steps of the root chain and of the message chains.
use crate::crypto::keys::KEY_LEN;
use crate::crypto::primitives;
use vstd::prelude::*;
use vstd::string::*;
use vstd::utf8::*;

verus! {

/// The key derived from `ikm` under a salt and a label.
pub open spec fn derived(ikm: Seq<u8>, salt: Seq<char>, label: Seq<char>) -> Seq<u8> {
    primitives::hkdf_sha256(ikm, encode_utf8(salt), encode_utf8(label))
}

/// The chain key that follows a chain key.
pub open spec fn next_chain_key(ck: Seq<u8>) -> Seq<u8> {
    derived(ck, "dr-ck-v1"@, "chain"@)
}

/// The message key that a chain key gives.
pub open spec fn message_key(ck: Seq<u8>) -> Seq<u8> {
    derived(ck, "dr-ck-v1"@, "msg"@)
}

/// The chain key `n` steps after a chain key.
pub open spec fn advanced(ck: Seq<u8>, n: nat) -> Seq<u8>
    decreases n,
{
    if n == 0 {
        ck
    } else {
        next_chain_key(advanced(ck, (n - 1) as nat))
    }
}

/// The root key that follows a root key and an agreed secret.
pub open spec fn next_root_key(rk: Seq<u8>, dh: Seq<u8>) -> Seq<u8> {
    derived(rk + dh, "dr-rk-v1"@, "root"@)
}

/// The chain key that a root key and an agreed secret start a chain with.
pub open spec fn first_chain_key(rk: Seq<u8>, dh: Seq<u8>) -> Seq<u8> {
    derived(rk + dh, "dr-rk-v1"@, "chain"@)
}

/// The keys of a step are expanded from all that goes into it, the chain key, or the root key and the
/// agreed secret behind it, each under a label of its own.
pub proof fn law_steps_expand_all_of_their_input(ck: Seq<u8>, rk: Seq<u8>, dh: Seq<u8>)
    ensures
        next_chain_key(ck) == primitives::hkdf_sha256(
            ck,
            encode_utf8("dr-ck-v1"@),
            encode_utf8("chain"@),
        ),
        message_key(ck) == primitives::hkdf_sha256(
            ck,
            encode_utf8("dr-ck-v1"@),
            encode_utf8("msg"@),
        ),
        next_root_key(rk, dh) == primitives::hkdf_sha256(
            rk + dh,
            encode_utf8("dr-rk-v1"@),
            encode_utf8("root"@),
        ),
        first_chain_key(rk, dh) == primitives::hkdf_sha256(
            rk + dh,
            encode_utf8("dr-rk-v1"@),
            encode_utf8("chain"@),
        ),
{
}

/// What is expanded in a step of the root chain determines the root key and the agreed secret.
pub proof fn law_root_step_binds_both(rk: Seq<u8>, dh: Seq<u8>, rk2: Seq<u8>, dh2: Seq<u8>)
    requires
        rk.len() == rk2.len(),
        rk + dh == rk2 + dh2,
    ensures
        rk == rk2,
        dh == dh2,
{
    let n = rk.len() as int;
    assert(rk =~= (rk + dh).take(n));
    assert(rk2 =~= (rk2 + dh2).take(n));
    assert(dh =~= (rk + dh).skip(n));
    assert(dh2 =~= (rk2 + dh2).skip(n));
}

/// Steps along a chain add up.
pub proof fn lemma_advanced_adds(ck: Seq<u8>, m: nat, n: nat)
    ensures
        advanced(advanced(ck, m), n) == advanced(ck, m + n),
    decreases n,
{
    if n > 0 {
        lemma_advanced_adds(ck, m, (n - 1) as nat);
        assert(m + n - 1 == m + (n - 1) as nat);
    }
}

/// Expands `ikm` under a salt and a label into a key.
pub fn hkdf_expand(ikm: &[u8], salt: &[u8], info: &[u8], out: &mut [u8; KEY_LEN])
    ensures
        final(out)@ == primitives::hkdf_sha256(ikm@, salt@, info@),
{
    *out = primitives::hkdf_sha256_expand(ikm, salt, info);
}

/// The key derived from `ikm` under a salt and a label.
pub(crate) fn derive(ikm: &[u8], salt: &str, label: &str) -> (key: [u8; KEY_LEN])
    ensures
        key@ == derived(ikm@, salt@, label@),
{
    let mut key = [0u8; KEY_LEN];
    hkdf_expand(ikm, salt.as_bytes(), label.as_bytes(), &mut key);
    key
}

/// One sequence of bytes behind another.
pub(crate) fn joined(a: &[u8], b: &[u8]) -> (r: Vec<u8>)
    ensures
        r@ == a@ + b@,
{
    let mut r: Vec<u8> = Vec::new();
    r.extend_from_slice(a);
    r.extend_from_slice(b);
    assert(r@ =~= a@ + b@);
    r
}

/// One step of a message chain: the next chain key, and the message key of this step.
pub fn kdf_ck(ck: &[u8; KEY_LEN]) -> (r: ([u8; KEY_LEN], [u8; KEY_LEN]))
    ensures
        r.0@ == next_chain_key(ck@),
        r.1@ == message_key(ck@),
{
    let next = derive(ck, "dr-ck-v1", "chain");
    let mk = derive(ck, "dr-ck-v1", "msg");
    (next, mk)
}

/// One step of the root chain: the next root key, and the first key of a new message chain.
pub fn kdf_rk(rk: &[u8; KEY_LEN], dh_out: &[u8; 32]) -> (r: ([u8; KEY_LEN], [u8; KEY_LEN]))
    ensures
        r.0@ == next_root_key(rk@, dh_out@),
        r.1@ == first_chain_key(rk@, dh_out@),
{
    let ikm = joined(rk, dh_out);
    let new_rk = derive(ikm.as_slice(), "dr-rk-v1", "root");
    let ck = derive(ikm.as_slice(), "dr-rk-v1", "chain");
    (new_rk, ck)
}

} // verus!
