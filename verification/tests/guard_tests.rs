use age_files::error::AgeError;
use age_files::guard::ExistingAgeFile;
use age_files::guard::ExistingNonAgeFile;

fn p(s: &str) -> Vec<u8> {
    s.as_bytes().to_vec()
}

#[test]
fn existing_age_file_t() {
    let base = "tests/types/some_dirs";
    let ext_path_01 = ExistingAgeFile::from_path(p(&format!("{}/{}", base, "file.txt.age")), true);
    let ext_path_02 =
        ExistingAgeFile::from_path(p(&format!("{}/{}", base, "doesntextstfile.txt.age")), false);
    let ext_path_03 =
        ExistingAgeFile::from_path(p(&format!("{}/{}", base, "doesntextstfile.txt")), false);
    let ext_path_04 = ExistingAgeFile::from_path(p(&format!("{}/{}", base, "file.txt")), true);

    assert!(ext_path_01.is_ok());
    assert!(ext_path_02.is_err());
    assert!(ext_path_03.is_err());
    assert!(ext_path_04.is_err());

    let binding = ext_path_01.unwrap();
    let strip_age = binding.strip_age().unwrap();
    assert_eq!(strip_age, p(&format!("{}/{}", base, "file.txt")));
}

#[test]
fn existing_non_age_file_t() {
    let base = "tests/types/some_dirs";
    let ext_path_01 =
        ExistingNonAgeFile::from_path(p(&format!("{}/{}", base, "file.txt.age")), true);
    let ext_path_02 =
        ExistingNonAgeFile::from_path(p(&format!("{}/{}", base, "doesntextstfile.txt.age")), false);
    let ext_path_03 =
        ExistingNonAgeFile::from_path(p(&format!("{}/{}", base, "doesntextstfile.txt")), false);
    let ext_path_04 = ExistingNonAgeFile::from_path(p(&format!("{}/{}", base, "file.txt")), true);

    assert!(ext_path_01.is_err());
    assert!(ext_path_02.is_err());
    assert!(ext_path_03.is_err());
    assert!(ext_path_04.is_ok());

    let binding = ext_path_04.unwrap();
    let strip_age = binding.append_age().unwrap();
    assert_eq!(strip_age, p(&format!("{}/{}", base, "file.txt.age")));
}

#[test]
fn guard_errors_name_the_failure() {
    assert_eq!(
        ExistingAgeFile::from_path(p("gone.age"), false).err(),
        Some(AgeError::NotFound)
    );
    assert_eq!(
        ExistingAgeFile::from_path(p("plain.txt"), true).err(),
        Some(AgeError::WrongExtension)
    );
    assert_eq!(
        ExistingNonAgeFile::from_path(p("gone.txt"), false).err(),
        Some(AgeError::NotFound)
    );
    assert_eq!(
        ExistingNonAgeFile::from_path(p("sealed.age"), true).err(),
        Some(AgeError::WrongExtension)
    );
}

#[test]
fn guard_disjointness_on_existing_paths() {
    for path in ["a/b/c.txt", "a/b/c.txt.age", "noext", "dir.age/inner", "x.AGE", "x.age"] {
        let age_ok = ExistingAgeFile::from_path(p(path), true).is_ok();
        let plain_ok = ExistingNonAgeFile::from_path(p(path), true).is_ok();
        assert!(age_ok != plain_ok, "exactly one guard must accept {path}");
    }
}

#[test]
fn path_pairing_round_trip() {
    let age = ExistingAgeFile::from_path(p("dir/note.txt.age"), true).unwrap();
    let q = age.strip_age().unwrap();
    assert_eq!(q, p("dir/note.txt"));
    let plain = ExistingNonAgeFile::from_path(q, true).unwrap();
    assert_eq!(plain.append_age().unwrap(), p("dir/note.txt.age"));
    // A pure derivation: the guard still wraps the path it was built with.
    assert_eq!(plain.path(), &p("dir/note.txt"));
}

#[test]
fn marker_extension_is_case_insensitive() {
    assert!(ExistingAgeFile::from_path(p("f.AGE"), true).is_ok());
    assert!(ExistingAgeFile::from_path(p("f.Age"), true).is_ok());
    assert!(ExistingNonAgeFile::from_path(p("f.AGE"), true).is_err());
}

#[test]
fn append_age_needs_a_file_name() {
    let dotdot = ExistingNonAgeFile::from_path(p("a/.."), true).unwrap();
    assert_eq!(dotdot.append_age().err(), Some(AgeError::NotAFile));

    let mut leading_dot = ExistingAgeFile::from_path(p(".age"), true).err();
    // `.age` has no extension (the dot is the file name's first byte), so the
    // age-file guard refuses it.
    assert_eq!(leading_dot.take(), Some(AgeError::WrongExtension));
}
