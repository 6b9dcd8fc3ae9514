//! The crypto engine: pure encrypt and decrypt transforms over byte buffers.
//!
//! Encryption builds the binary stanza-based encrypted-file structure through
//! the `age` crate — one header stanza per recipient wrapping a fresh random
//! file key, then the payload in authenticated chunks — and always wraps the
//! binary in ASCII armor before returning it. Decryption probes for the armor
//! begin marker, unwraps armored input with the verified armor decoder, and
//! tries each identity against the header stanzas; it is fail-closed — no
//! unauthenticated plaintext is ever returned.
//!
//! What the binary transforms return only the `age` crate decides; that
//! result is named by an uninterpreted spec function of the ciphertext and
//! the identity token texts, which are plain values. Everything around the
//! two trusted calls — armor, probing, splitting the key material by kind —
//! is verified.

use std::io::Read;
use std::io::Write;
use std::str::FromStr;

use vstd::prelude::*;

use crate::armor::armor_decode;
use crate::armor::armor_decode_spec;
use crate::armor::armor_encode;
use crate::armor::armor_spec;
use crate::armor::is_armored;
use crate::armor::lemma_armor_round_trip;
use crate::armor::probe_armored;
use crate::error::AgeError;
use crate::keys::IdentitySet;
use crate::keys::RecipientSet;
use crate::keys::lemma_ids_parts_ok;
use crate::keys::lemma_recips_parts_ok;
use crate::keys::split_identity_units;
use crate::keys::split_recipient_tokens;
use crate::keys::ssh_ids_part;
use crate::keys::ssh_identity_ok;
use crate::keys::ssh_recipient_ok;
use crate::keys::x25519_identity_ok;
use crate::keys::x25519_ids_part;
use crate::keys::x25519_public_of;
use crate::keys::x25519_recipient_ok;

verus! {

/// What age decryption of a binary ciphertext returns for given lists of
/// native x25519 identity tokens and whole SSH private key texts: the
/// plaintext when some identity unwraps the file key and the whole payload
/// authenticates, nothing otherwise. Decided by the `age` crate, as a
/// function of the ciphertext and the key texts alone.
pub uninterp spec fn age_decrypt_of(
    ciphertext: Seq<u8>,
    x25519_ids: Seq<Seq<u8>>,
    ssh_ids: Seq<Seq<u8>>,
) -> Option<Seq<u8>>;

/// Whether age decryption of a binary ciphertext fails because no supplied
/// identity unwraps any header stanza — the crate's `NoMatchingKeys` — as
/// opposed to structural corruption or an authentication failure. Decided by
/// the `age` crate, as a function of the ciphertext and the key texts alone.
pub uninterp spec fn age_no_match_of(
    ciphertext: Seq<u8>,
    x25519_ids: Seq<Seq<u8>>,
    ssh_ids: Seq<Seq<u8>>,
) -> bool;

/// The engine's round-trip guarantee for a binary ciphertext: decryption
/// with any well-formed key material of which some native identity belongs
/// to a member of `recipients` yields `plaintext`.
pub open spec fn decrypts_to_for(bin: Seq<u8>, plaintext: Seq<u8>, recipients: Seq<Seq<u8>>) -> bool {
    forall|x_ids: Seq<Seq<u8>>, ssh_ids: Seq<Seq<u8>>|
        ((forall|j: int| 0 <= j < x_ids.len() ==> x25519_identity_ok(#[trigger] x_ids[j])) && (
        forall|j: int| 0 <= j < ssh_ids.len() ==> ssh_identity_ok(#[trigger] ssh_ids[j])) && (
        exists|k: int|
            0 <= k < x_ids.len() && recipients.contains(x25519_public_of(#[trigger] x_ids[k]))))
            ==> #[trigger] age_decrypt_of(bin, x_ids, ssh_ids) == Some(plaintext)
}

/// An armored ciphertext that an encryption of `plaintext` for `recipients`
/// can have produced.
pub open spec fn encrypt_output_ok(
    plaintext: Seq<u8>,
    recipients: Seq<Seq<u8>>,
    ct: Seq<u8>,
) -> bool {
    exists|bin: Seq<u8>|
        ct == #[trigger] armor_spec(bin) && decrypts_to_for(bin, plaintext, recipients)
}

#[verifier::external_type_specification]
#[verifier::external_body]
pub struct ExX25519Recipient(age::x25519::Recipient);

#[verifier::external_type_specification]
#[verifier::external_body]
pub struct ExX25519Identity(age::x25519::Identity);

#[verifier::external_type_specification]
#[verifier::external_body]
pub struct ExSshRecipient(age::ssh::Recipient);

#[verifier::external_type_specification]
#[verifier::external_body]
pub struct ExSshIdentity(age::ssh::Identity);

/// Relies on `age::x25519::Recipient::from_str`: parses each token, one for
/// one.
#[verifier::external_body]
fn parse_x25519_recipients(toks: &Vec<Vec<u8>>) -> (r: Vec<age::x25519::Recipient>)
    requires
        forall|i: int|
            0 <= i < toks.deep_view().len() ==> x25519_recipient_ok(
                #[trigger] toks.deep_view()[i],
            ),
    ensures
        r@.len() == toks.deep_view().len(),
{
    toks.iter().map(|t| String::from_utf8_lossy(t).parse().unwrap()).collect()
}

/// Relies on `age::x25519::Identity::from_str`: parses each token, one for
/// one.
#[verifier::external_body]
fn parse_x25519_identities(toks: &Vec<Vec<u8>>) -> (r: Vec<age::x25519::Identity>)
    requires
        forall|i: int|
            0 <= i < toks.deep_view().len() ==> x25519_identity_ok(
                #[trigger] toks.deep_view()[i],
            ),
    ensures
        r@.len() == toks.deep_view().len(),
{
    toks.iter().map(|t| String::from_utf8_lossy(t).parse().unwrap()).collect()
}

/// Relies on `age::ssh::Recipient::from_str`: parses each line, one for one.
#[verifier::external_body]
fn parse_ssh_recipients(toks: &Vec<Vec<u8>>) -> (r: Vec<age::ssh::Recipient>)
    requires
        forall|i: int|
            0 <= i < toks.deep_view().len() ==> ssh_recipient_ok(#[trigger] toks.deep_view()[i]),
    ensures
        r@.len() == toks.deep_view().len(),
{
    toks.iter().map(|t| String::from_utf8_lossy(t).parse().unwrap()).collect()
}

/// Relies on `age::ssh::Identity::from_buffer`: parses each whole key file
/// text, one for one.
#[verifier::external_body]
fn parse_ssh_identities(texts: &Vec<Vec<u8>>) -> (r: Vec<age::ssh::Identity>)
    requires
        forall|i: int|
            0 <= i < texts.deep_view().len() ==> ssh_identity_ok(#[trigger] texts.deep_view()[i]),
    ensures
        r@.len() == texts.deep_view().len(),
{
    texts.iter().map(|t| age::ssh::Identity::from_buffer(&t[..], None).unwrap()).collect()
}

/// Relies on `age::Encryptor::with_recipients` and its stream writer: builds
/// the binary age file for the given x25519 and SSH recipient tokens with a
/// fresh random file key. With at least one well-formed recipient the
/// construction cannot fail or abort: the writer writes to memory, and
/// `x25519_recipient_ok` admits only full-order points, so the key wrapping
/// never meets the all-zero shared secret it would panic on. The crate
/// guarantees that every recipient — and nobody else — can decrypt the
/// result: decryption with any well-formed key material containing a
/// matching native identity returns exactly the plaintext.
#[verifier::external_body]
fn age_encrypt_binary(plaintext: &Vec<u8>, x_recips: &Vec<Vec<u8>>, ssh_recips: &Vec<Vec<u8>>) -> (r: Vec<u8>)
    requires
        x_recips.deep_view().len() + ssh_recips.deep_view().len() > 0,
        forall|i: int|
            0 <= i < x_recips.deep_view().len() ==> x25519_recipient_ok(
                #[trigger] x_recips.deep_view()[i],
            ),
        forall|i: int|
            0 <= i < ssh_recips.deep_view().len() ==> ssh_recipient_ok(
                #[trigger] ssh_recips.deep_view()[i],
            ),
    ensures
        decrypts_to_for(r@, plaintext@, x_recips.deep_view() + ssh_recips.deep_view()),
{
    let xs = parse_x25519_recipients(x_recips);
    let ss = parse_ssh_recipients(ssh_recips);
    let all = xs.iter().map(|k| k as &dyn age::Recipient).chain(ss.iter().map(|k| k as _));
    let enc = age::Encryptor::with_recipients(all).unwrap();
    let mut out = Vec::new();
    let mut w = enc.wrap_output(&mut out).unwrap();
    w.write_all(plaintext).unwrap();
    w.finish().unwrap();
    out
}

/// Relies on `age::Decryptor::new_buffered`, `Decryptor::decrypt` and its
/// stream reader: tries each identity against the header stanzas and reads
/// the authenticated payload to its end, so no truncated or tampered
/// plaintext is returned. The outcome is a function of the ciphertext and
/// the key texts. The error payload tells a missing match (`true`, the
/// crate's `NoMatchingKeys`) from structural corruption or an
/// authentication failure (`false`).
#[verifier::external_body]
fn age_decrypt_binary(ciphertext: &Vec<u8>, x_ids: &Vec<Vec<u8>>, ssh_ids: &Vec<Vec<u8>>) -> (r: Result<Vec<u8>, bool>)
    requires
        forall|i: int|
            0 <= i < x_ids.deep_view().len() ==> x25519_identity_ok(
                #[trigger] x_ids.deep_view()[i],
            ),
        forall|i: int|
            0 <= i < ssh_ids.deep_view().len() ==> ssh_identity_ok(
                #[trigger] ssh_ids.deep_view()[i],
            ),
    ensures
        r matches Ok(v) ==> age_decrypt_of(ciphertext@, x_ids.deep_view(), ssh_ids.deep_view())
            == Some(v@),
        r is Err ==> age_decrypt_of(ciphertext@, x_ids.deep_view(), ssh_ids.deep_view()) is None,
        r matches Err(no_match) ==> no_match == age_no_match_of(
            ciphertext@,
            x_ids.deep_view(),
            ssh_ids.deep_view(),
        ),
{
    let xs = parse_x25519_identities(x_ids);
    let ss = parse_ssh_identities(ssh_ids);
    let all = xs.iter().map(|k| k as &dyn age::Identity).chain(ss.iter().map(|k| k as _));
    let dec = age::Decryptor::new_buffered(&ciphertext[..]).map_err(|_| false)?;
    let mut reader = dec.decrypt(all).map_err(|e| matches!(e, age::DecryptError::NoMatchingKeys))?;
    let mut pt = Vec::new();
    reader.read_to_end(&mut pt).map_err(|_| false)?;
    Ok(pt)
}

/// Encrypts a plaintext for every member of a non-empty recipient set and
/// wraps the result in ASCII armor. Encryption to a well-formed recipient
/// set always succeeds; the ciphertext is armored text from which any
/// matching native identity recovers exactly the plaintext.
pub fn encrypt(plaintext: &Vec<u8>, recipients: &RecipientSet) -> (r: Result<Vec<u8>, AgeError>)
    requires
        recipients.wf(),
    ensures
        r is Ok,
        r matches Ok(ct) ==> encrypt_output_ok(plaintext@, recipients@, ct@) && is_armored(ct@),
{
    let (xs, sshs) = split_recipient_tokens(recipients.tokens());
    proof {
        lemma_recips_parts_ok(recipients@);
    }
    let bin = age_encrypt_binary(plaintext, &xs, &sshs);
    let ct = armor_encode(&bin);
    proof {
        lemma_armor_round_trip(bin@);
        let parts = xs.deep_view() + sshs.deep_view();
        assert(decrypts_to_for(bin@, plaintext@, recipients@)) by {
            assert forall|x_ids: Seq<Seq<u8>>, ssh_ids: Seq<Seq<u8>>|
                ((forall|j: int| 0 <= j < x_ids.len() ==> x25519_identity_ok(#[trigger] x_ids[j]))
                    && (forall|j: int|
                    0 <= j < ssh_ids.len() ==> ssh_identity_ok(#[trigger] ssh_ids[j])) && (exists|
                    k: int,
                |
                    0 <= k < x_ids.len() && recipients@.contains(
                        x25519_public_of(#[trigger] x_ids[k]),
                    ))) implies #[trigger] age_decrypt_of(bin@, x_ids, ssh_ids) == Some(
                plaintext@,
            ) by {
                let k = choose|k: int|
                    0 <= k < x_ids.len() && recipients@.contains(
                        x25519_public_of(#[trigger] x_ids[k]),
                    );
                let e = x25519_public_of(x_ids[k]);
                assert(xs.deep_view().contains(e) || sshs.deep_view().contains(e));
                if xs.deep_view().contains(e) {
                    let w = choose|w: int|
                        0 <= w < xs.deep_view().len() && xs.deep_view()[w] == e;
                    assert(parts[w] == e);
                } else {
                    let w = choose|w: int|
                        0 <= w < sshs.deep_view().len() && sshs.deep_view()[w] == e;
                    assert(parts[xs.deep_view().len() + w] == e);
                }
                assert(parts.contains(e));
            }
        }
        assert(ct@ == armor_spec(bin@));
    }
    Ok(ct)
}

/// What decryption returns for a given input and key material: armored input
/// (recognised by the begin marker) is unwrapped first and fails on any
/// structural violation of the armor; raw binary input is taken as it is;
/// the age decryption of the binary decides the rest.
pub open spec fn decrypt_spec(
    input: Seq<u8>,
    x_ids: Seq<Seq<u8>>,
    ssh_ids: Seq<Seq<u8>>,
) -> Option<Seq<u8>> {
    if is_armored(input) {
        match armor_decode_spec(input) {
            Some(bin) => age_decrypt_of(bin, x_ids, ssh_ids),
            None => None,
        }
    } else {
        age_decrypt_of(input, x_ids, ssh_ids)
    }
}

/// Whether a failing decryption failed for want of a matching identity:
/// armor violations are structural failures, never a missing match; for a
/// binary payload the age decryption decides.
pub open spec fn decrypt_no_match(
    input: Seq<u8>,
    x_ids: Seq<Seq<u8>>,
    ssh_ids: Seq<Seq<u8>>,
) -> bool {
    if is_armored(input) {
        match armor_decode_spec(input) {
            Some(bin) => age_no_match_of(bin, x_ids, ssh_ids),
            None => false,
        }
    } else {
        age_no_match_of(input, x_ids, ssh_ids)
    }
}

/// Decrypts armored or raw binary ciphertext with the first identity of the
/// set that matches a header stanza. Fail-closed: corrupt armor, a corrupt
/// header or any authentication failure yields `DecryptFailure` and no
/// plaintext; `NoMatchingIdentity` comes exactly when no identity of the set
/// unwraps any header stanza.
pub fn decrypt(input: &Vec<u8>, identities: &IdentitySet) -> (r: Result<Vec<u8>, AgeError>)
    requires
        identities.wf(),
    ensures
        decrypt_spec(input@, x25519_ids_part(identities@), ssh_ids_part(identities@)) matches Some(
            p,
        ) ==> (r matches Ok(v) && v@ == p),
        decrypt_spec(input@, x25519_ids_part(identities@), ssh_ids_part(identities@)) is None ==> r
            === Err(
            if decrypt_no_match(input@, x25519_ids_part(identities@), ssh_ids_part(identities@)) {
                AgeError::NoMatchingIdentity
            } else {
                AgeError::DecryptFailure
            },
        ),
{
    let (xs, sshs) = split_identity_units(identities.tokens());
    proof {
        lemma_ids_parts_ok(identities@);
    }
    let outcome = if probe_armored(input.as_slice()) {
        match armor_decode(input.as_slice()) {
            Some(bin) => age_decrypt_binary(&bin, &xs, &sshs),
            None => Err(false),
        }
    } else {
        age_decrypt_binary(input, &xs, &sshs)
    };
    match outcome {
        Ok(p) => Ok(p),
        Err(no_match) => Err(
            if no_match {
                AgeError::NoMatchingIdentity
            } else {
                AgeError::DecryptFailure
            },
        ),
    }
}

/// Round trip: a ciphertext that `encrypt` produced for some non-empty
/// recipient set decrypts back to the plaintext under any well-formed key
/// material of which at least one native identity's public key is among the
/// recipients.
pub proof fn lemma_round_trip(
    plaintext: Seq<u8>,
    recipients: Seq<Seq<u8>>,
    ct: Seq<u8>,
    x_ids: Seq<Seq<u8>>,
    ssh_ids: Seq<Seq<u8>>,
)
    requires
        encrypt_output_ok(plaintext, recipients, ct),
        forall|j: int| 0 <= j < x_ids.len() ==> x25519_identity_ok(#[trigger] x_ids[j]),
        forall|j: int| 0 <= j < ssh_ids.len() ==> ssh_identity_ok(#[trigger] ssh_ids[j]),
        exists|k: int|
            0 <= k < x_ids.len() && recipients.contains(x25519_public_of(#[trigger] x_ids[k])),
    ensures
        decrypt_spec(ct, x_ids, ssh_ids) == Some(plaintext),
{
    let bin = choose|bin: Seq<u8>|
        ct == #[trigger] armor_spec(bin) && decrypts_to_for(bin, plaintext, recipients);
    lemma_armor_round_trip(bin);
    assert(age_decrypt_of(bin, x_ids, ssh_ids) == Some(plaintext));
}

} // verus!
