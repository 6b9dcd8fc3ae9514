use std::io::Read;
use std::io::Write;

use age_files::armor::armor_decode;
use age_files::armor::armor_encode;
use age_files::crypt::decrypt;
use age_files::crypt::encrypt;
use age_files::error::AgeError;
use age_files::keys::generate_keypair;
use age_files::keys::load_identities;
use age_files::keys::load_recipients;

fn recipients_of(token: &[u8]) -> age_files::keys::RecipientSet {
    load_recipients(&vec![token.to_vec()]).unwrap()
}

fn identities_of(token: &[u8]) -> age_files::keys::IdentitySet {
    load_identities(&vec![token.to_vec()]).unwrap()
}

#[test]
fn encrypt_decrypt_round_trip() {
    let (secret, public) = generate_keypair();
    let recipients = recipients_of(&public);
    let identities = identities_of(&secret);
    let plaintext = b"attack at dawn, bring snacks".to_vec();
    let ct = encrypt(&plaintext, &recipients).unwrap();
    assert_eq!(decrypt(&ct, &identities).unwrap(), plaintext);
}

#[test]
fn ciphertext_is_armored_text() {
    let (_, public) = generate_keypair();
    let ct = encrypt(&b"hi".to_vec(), &recipients_of(&public)).unwrap();
    let text = String::from_utf8(ct.clone()).expect("armor must be ASCII text");
    assert!(text.starts_with("-----BEGIN AGE ENCRYPTED FILE-----\n"));
    assert!(text.ends_with("-----END AGE ENCRYPTED FILE-----\n"));
    for line in text.lines() {
        assert!(line.len() <= 64);
        assert!(!line.is_empty());
    }
}

#[test]
fn armor_fidelity_all_padding_shapes() {
    for n in 0..130usize {
        let data: Vec<u8> = (0..n).map(|i| (i * 37 + n) as u8).collect();
        let armored = armor_encode(&data);
        assert_eq!(armor_decode(&armored), Some(data), "length {n}");
    }
}

#[test]
fn armor_rejects_structural_damage() {
    let data = b"some binary payload".to_vec();
    let good = armor_encode(&data);
    assert!(armor_decode(&good).is_some());

    let mut no_begin = good.clone();
    no_begin[0] = b'x';
    assert_eq!(armor_decode(&no_begin), None);

    let mut bad_pad = good.clone();
    let body_byte = "-----BEGIN AGE ENCRYPTED FILE-----\n".len();
    bad_pad[body_byte] = b'=';
    assert_eq!(armor_decode(&bad_pad), None);

    let truncated = &good[..good.len() - 1];
    assert_eq!(armor_decode(truncated), None);
}

#[test]
fn armor_matches_reference_implementation() {
    let (_, public) = generate_keypair();
    let ct = encrypt(&b"interop check".to_vec(), &recipients_of(&public)).unwrap();

    let mut reader = age::armor::ArmoredReader::new(&ct[..]);
    let mut reference_binary = Vec::new();
    reader.read_to_end(&mut reference_binary).unwrap();
    assert_eq!(armor_decode(&ct), Some(reference_binary.clone()));

    let mut reference_armor = Vec::new();
    {
        let mut w = age::armor::ArmoredWriter::wrap_output(
            &mut reference_armor,
            age::armor::Format::AsciiArmor,
        )
        .unwrap();
        w.write_all(&reference_binary).unwrap();
        w.finish().unwrap();
    }
    assert_eq!(armor_encode(&reference_binary), reference_armor);
}

#[test]
fn decrypt_accepts_raw_binary_input() {
    let (secret, public) = generate_keypair();
    let ct = encrypt(&b"unarmored path".to_vec(), &recipients_of(&public)).unwrap();
    let binary = armor_decode(&ct).unwrap();
    assert_eq!(
        decrypt(&binary, &identities_of(&secret)).unwrap(),
        b"unarmored path".to_vec()
    );
}

#[test]
fn multi_identity_fallback() {
    let (wrong_secret, _) = generate_keypair();
    let (right_secret, public) = generate_keypair();
    let ct = encrypt(&b"fallback".to_vec(), &recipients_of(&public)).unwrap();

    let both = load_identities(&vec![wrong_secret.clone(), right_secret.clone()]).unwrap();
    assert_eq!(decrypt(&ct, &both).unwrap(), b"fallback".to_vec());

    let wrong_only = identities_of(&wrong_secret);
    assert_eq!(decrypt(&ct, &wrong_only).err(), Some(AgeError::NoMatchingIdentity));
}

#[test]
fn every_recipient_can_decrypt() {
    let (secret_a, public_a) = generate_keypair();
    let (secret_b, public_b) = generate_keypair();
    let recipients = load_recipients(&vec![public_a.clone(), public_b.clone()]).unwrap();
    let ct = encrypt(&b"for both of you".to_vec(), &recipients).unwrap();
    assert_eq!(decrypt(&ct, &identities_of(&secret_a)).unwrap(), b"for both of you".to_vec());
    assert_eq!(decrypt(&ct, &identities_of(&secret_b)).unwrap(), b"for both of you".to_vec());
}

#[test]
fn tamper_detection_never_returns_altered_plaintext() {
    let (secret, public) = generate_keypair();
    let plaintext = b"integrity matters".to_vec();
    let ct = encrypt(&plaintext, &recipients_of(&public)).unwrap();
    let identities = identities_of(&secret);
    for i in 0..ct.len() {
        let mut tampered = ct.clone();
        tampered[i] ^= 0x01;
        let r = decrypt(&tampered, &identities);
        assert!(
            matches!(r, Err(AgeError::DecryptFailure) | Err(AgeError::NoMatchingIdentity)),
            "flipping byte {i} must fail decryption"
        );
    }
}

#[test]
fn tampered_payload_fails_with_decrypt_failure() {
    let (secret, public) = generate_keypair();
    let plaintext = b"payload corruption".to_vec();
    let ct = encrypt(&plaintext, &recipients_of(&public)).unwrap();
    let identities = identities_of(&secret);
    // The final body bytes of the armor encode the authenticated payload
    // chunk; flipping any of them must surface as an authentication failure.
    let end_len = "-----END AGE ENCRYPTED FILE-----\n".len();
    for i in (ct.len() - end_len - 10)..(ct.len() - end_len - 1) {
        let mut tampered = ct.clone();
        tampered[i] ^= 0x01;
        assert_eq!(
            decrypt(&tampered, &identities).err(),
            Some(AgeError::DecryptFailure),
            "payload byte {i}"
        );
    }
}
