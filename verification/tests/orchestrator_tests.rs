use age_files::error::AgeError;
use age_files::keys::generate_keypair;
use age_files::keys::load_identities;
use age_files::orchestrator::App;
use age_files::orchestrator::Config;

fn app_with(default_key_path: &str, encrypt_and_del: bool) -> App {
    App::new(Config {
        default_key_path: default_key_path.as_bytes().to_vec(),
        encrypt_and_del,
    })
}

#[test]
fn encrypt_then_decrypt_greeting() {
    let (secret, public) = generate_keypair();
    let app = app_with("key.txt", false);

    let encrypted = app
        .encrypt_current_file(
            &b"greeting.txt".to_vec(),
            true,
            &b"Hello world!".to_vec(),
            &vec![public],
        )
        .unwrap();
    assert_eq!(encrypted.target_path, b"greeting.txt.age".to_vec());
    assert!(!encrypted.delete_original);

    let decrypted = app
        .decrypt_current_file(
            &encrypted.target_path,
            true,
            &encrypted.ciphertext,
            &vec![secret],
        )
        .unwrap();
    assert_eq!(decrypted.target_path, b"greeting.txt".to_vec());
    assert_eq!(decrypted.plaintext, b"Hello world!".to_vec());
}

#[test]
fn decrypt_refuses_unmarked_files() {
    let (secret, _) = generate_keypair();
    let app = app_with("key.txt", false);
    let r = app.decrypt_current_file(
        &b"notes.txt".to_vec(),
        true,
        &b"whatever".to_vec(),
        &vec![secret],
    );
    assert_eq!(r.err(), Some(AgeError::WrongExtension));
}

#[test]
fn encrypt_refuses_marked_and_missing_files() {
    let (_, public) = generate_keypair();
    let app = app_with("key.txt", true);
    let r = app.encrypt_current_file(
        &b"sealed.txt.age".to_vec(),
        true,
        &b"data".to_vec(),
        &vec![public.clone()],
    );
    assert_eq!(r.err(), Some(AgeError::WrongExtension));

    let r = app.encrypt_current_file(&b"gone.txt".to_vec(), false, &b"data".to_vec(), &vec![public]);
    assert_eq!(r.err(), Some(AgeError::NotFound));
}

#[test]
fn delete_flag_follows_configuration() {
    let (_, public) = generate_keypair();
    let app = app_with("key.txt", true);
    let out = app
        .encrypt_current_file(&b"a.txt".to_vec(), true, &b"x".to_vec(), &vec![public])
        .unwrap();
    assert!(out.delete_original);
}

#[test]
fn setup_replaces_the_configuration() {
    let mut app = app_with("old.txt", false);
    app.setup(Config {
        default_key_path: b"new.txt".to_vec(),
        encrypt_and_del: true,
    });
    assert_eq!(app.config.default_key_path, b"new.txt".to_vec());
    assert!(app.config.encrypt_and_del);
}

#[test]
fn effective_key_paths_fall_back_to_default() {
    let app = app_with("fallback.txt", false);
    let explicit = app.effective_key_paths(vec![b"a".to_vec(), b"b".to_vec()]);
    assert_eq!(explicit.len(), 2);
    let fallback = app.effective_key_paths(Vec::new());
    assert_eq!(fallback, vec![b"fallback.txt".to_vec()]);
}

#[test]
fn generated_key_file_loads_back() {
    let app = app_with("key.txt", false);
    let (name, contents) = app.gen_new_key();
    assert_eq!(name, b"key.txt".to_vec());
    let text = String::from_utf8(contents.clone()).unwrap();
    assert!(text.starts_with("# created: "));
    assert!(text.contains("\n# public key: age1"));
    let ids = load_identities(&vec![contents]).unwrap();
    assert_eq!(ids.tokens().len(), 1);
    assert!(String::from_utf8(ids.tokens()[0].clone())
        .unwrap()
        .starts_with("AGE-SECRET-KEY-1"));
    // The creation comment carries an RFC 3339 timestamp.
    let created = text.lines().next().unwrap().strip_prefix("# created: ").unwrap();
    assert!(created.len() >= 20);
    assert_eq!(&created[4..5], "-");
    assert_eq!(&created[10..11], "T");
    assert!(created
        .bytes()
        .all(|b| b.is_ascii_digit() || matches!(b, b'-' | b'+' | b':' | b'T' | b'Z')));
}
