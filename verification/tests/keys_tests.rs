use age_files::error::AgeError;
use age_files::keys::expand_home;
use age_files::keys::generate_keypair;
use age_files::keys::load_identities;
use age_files::keys::load_recipients;

fn text(s: &str) -> Vec<u8> {
    s.as_bytes().to_vec()
}

#[test]
fn comments_and_blank_lines_are_skipped() {
    let (secret, public) = generate_keypair();
    let mut file = Vec::new();
    file.extend_from_slice(b"# a comment\n\n# another: age1notakeybutacomment\n");
    file.extend_from_slice(&secret);
    file.extend_from_slice(b"\n");
    let ids = load_identities(&vec![file]).unwrap();
    assert_eq!(ids.tokens().len(), 1);
    assert_eq!(ids.tokens()[0], secret);
    // The same file holds no recipient token outside comments.
    let mut pubfile = Vec::new();
    pubfile.extend_from_slice(b"# keep\n");
    pubfile.extend_from_slice(&public);
    pubfile.extend_from_slice(b"\r\n");
    let rs = load_recipients(&vec![pubfile]).unwrap();
    assert_eq!(rs.tokens()[0], public);
}

#[test]
fn multiple_key_files_are_additive_in_order() {
    let (secret_a, _) = generate_keypair();
    let (secret_b, _) = generate_keypair();
    let ids = load_identities(&vec![secret_a.clone(), secret_b.clone()]).unwrap();
    assert_eq!(ids.tokens().len(), 2);
    assert_eq!(ids.tokens()[0], secret_a);
    assert_eq!(ids.tokens()[1], secret_b);
}

#[test]
fn empty_key_material_is_a_hard_error() {
    assert_eq!(
        load_identities(&vec![text("# nothing here\n")]).err(),
        Some(AgeError::EmptyKeySet)
    );
    assert_eq!(load_recipients(&vec![Vec::new()]).err(), Some(AgeError::EmptyKeySet));
}

#[test]
fn malformed_tokens_fail_to_parse() {
    assert_eq!(
        load_identities(&vec![text("AGE-SECRET-KEY-1NOTREALLY\n")]).err(),
        Some(AgeError::ParseFailure)
    );
    assert_eq!(
        load_recipients(&vec![text("age1waytooshort\n")]).err(),
        Some(AgeError::ParseFailure)
    );
}

#[test]
fn low_order_recipient_is_rejected() {
    // The Bech32 encoding of the all-zero point: a parseable token that age's
    // key wrapping would abort on, so validation must refuse it.
    let token = format!("age1{}{}", "q".repeat(52), "5cu47z");
    assert_eq!(
        load_recipients(&vec![text(&token)]).err(),
        Some(AgeError::ParseFailure)
    );
    // A freshly generated recipient still passes the same check.
    let (_, public) = generate_keypair();
    assert!(load_recipients(&vec![public]).is_ok());
}

#[test]
fn home_shorthand_expansion() {
    let home = text("/home/riley");
    assert_eq!(expand_home(&text("~"), &home), text("/home/riley"));
    assert_eq!(expand_home(&text("~/keys/k.txt"), &home), text("/home/riley/keys/k.txt"));
    assert_eq!(expand_home(&text("keys/k.txt"), &home), text("keys/k.txt"));
    assert_eq!(expand_home(&text("/abs/k.txt"), &home), text("/abs/k.txt"));
    assert_eq!(expand_home(&text("~strange"), &home), text("~strange"));
}
