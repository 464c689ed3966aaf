use define::engine::{
    contains_exact_line, delete, gather_candidate_read_paths, load_from_appropriate_path,
    load_term_content, lookup, lookup_content, materialize_path, store, store_on_appropriate_path,
    DefineError,
};
use define::fs::FsModel;
use define::resolver::Config;

fn two_dir_config() -> Config {
    Config {
        override_paths: Some(String::from("/a:/b")),
        home: String::from("/home/u"),
    }
}

#[test]
fn test_store_creates_file_and_directory() {
    let mut fs = FsModel::empty();
    let cfg = two_dir_config();

    let r = store(&mut fs, &cfg, "key", "meaning");

    assert_eq!(r, Ok(String::from("meaning\n")));
    assert!(fs.dir_exists("/a"));
    assert!(fs.file_exists("/a", "key"));
    assert!(!fs.file_exists("/b", "key"));
}

#[test]
fn test_store_same_value_twice_is_idempotent() {
    let mut fs = FsModel::empty();
    let cfg = two_dir_config();

    let first = store(&mut fs, &cfg, "key", "meaning");
    let second = store(&mut fs, &cfg, "key", "meaning");

    assert_eq!(first, Ok(String::from("meaning\n")));
    assert_eq!(first, second);
    let file = fs.get_file("/a", "key").unwrap();
    assert_eq!(file.lines.len(), 1);
}

#[test]
fn test_store_two_distinct_values_appends_in_order() {
    let mut fs = FsModel::empty();
    let cfg = two_dir_config();

    let first = store(&mut fs, &cfg, "key", "one");
    let second = store(&mut fs, &cfg, "key", "two");

    assert_eq!(first, Ok(String::from("one\n")));
    assert_eq!(second, Ok(String::from("one\ntwo\n")));
    let file = fs.get_file("/a", "key").unwrap();
    assert_eq!(file.lines, vec![String::from("one"), String::from("two")]);
}

#[test]
fn test_lookup_after_store_contains_value() {
    let mut fs = FsModel::empty();
    let cfg = two_dir_config();

    store(&mut fs, &cfg, "key", "meaning").unwrap();
    let found = lookup(&fs, &cfg, "key").unwrap();

    assert!(found.contains("meaning"));
    assert_eq!(found, "meaning\n");
}

#[test]
fn test_lookup_prefers_higher_priority_file() {
    let mut fs = FsModel::empty();
    fs.create_dir("/a", true);
    fs.create_dir("/b", true);
    fs.add_file("/a", "key", true, true, vec![String::from("top")]);
    fs.add_file("/b", "key", true, true, vec![String::from("shadowed")]);
    let cfg = two_dir_config();

    assert_eq!(lookup(&fs, &cfg, "key"), Ok(String::from("top\n")));
}

#[test]
fn test_lookup_skips_unreadable_file() {
    let mut fs = FsModel::empty();
    fs.create_dir("/a", true);
    fs.create_dir("/b", true);
    fs.add_file("/a", "key", false, true, vec![String::from("locked")]);
    fs.add_file("/b", "key", true, true, vec![String::from("visible")]);
    let cfg = two_dir_config();

    assert_eq!(lookup(&fs, &cfg, "key"), Ok(String::from("visible\n")));
}

#[test]
fn test_lookup_missing_key_is_not_found() {
    let fs = FsModel::empty();
    let cfg = two_dir_config();

    assert_eq!(lookup(&fs, &cfg, "absent"), Err(DefineError::NotFound));
    assert_eq!(lookup_content(&fs, &cfg, "absent"), None);
}

#[test]
fn test_load_term_content_reports_missing_as_not_found() {
    let fs = FsModel::empty();
    let cfg = two_dir_config();

    assert_eq!(
        load_term_content(&fs, &cfg, "absent"),
        Err(DefineError::NotFound)
    );
}

#[test]
fn test_store_skips_unwritable_directory() {
    let mut fs = FsModel::empty();
    fs.create_dir("/a", false);
    let cfg = two_dir_config();

    let r = store(&mut fs, &cfg, "key", "meaning");

    assert_eq!(r, Ok(String::from("meaning\n")));
    assert!(!fs.file_exists("/a", "key"));
    assert!(fs.file_exists("/b", "key"));
}

#[test]
fn test_store_fails_when_no_candidate_is_writable() {
    let mut fs = FsModel::empty();
    fs.create_dir("/a", false);
    fs.create_dir("/b", false);
    let cfg = two_dir_config();

    let r = store(&mut fs, &cfg, "key", "meaning");

    assert_eq!(r, Err(DefineError::WriteFailure));
    assert!(!fs.file_exists("/a", "key"));
    assert!(!fs.file_exists("/b", "key"));
}

#[test]
fn test_store_dedup_is_exact_full_line_match() {
    let mut fs = FsModel::empty();
    fs.create_dir("/a", true);
    fs.add_file("/a", "key", true, true, vec![String::from("meaningful")]);
    let cfg = two_dir_config();

    // "meaning" is a prefix of an existing line, not an exact match, so it
    // is appended rather than treated as already present.
    let r = store(&mut fs, &cfg, "key", "meaning");

    assert_eq!(r, Ok(String::from("meaningful\nmeaning\n")));
}

#[test]
fn test_delete_removes_only_highest_priority_candidate() {
    let mut fs = FsModel::empty();
    fs.create_dir("/a", true);
    fs.create_dir("/b", true);
    fs.add_file("/a", "key", true, true, vec![String::from("top")]);
    fs.add_file("/b", "key", true, true, vec![String::from("below")]);
    let cfg = two_dir_config();

    assert_eq!(delete(&mut fs, &cfg, "key"), Ok(()));
    assert!(!fs.file_exists("/a", "key"));
    assert!(fs.file_exists("/b", "key"));
    assert_eq!(lookup(&fs, &cfg, "key"), Ok(String::from("below\n")));
}

#[test]
fn test_delete_without_candidates_is_a_distinct_error() {
    let mut fs = FsModel::empty();
    let cfg = two_dir_config();

    let r = delete(&mut fs, &cfg, "absent");

    assert_eq!(r, Err(DefineError::NoDeleteCandidate));
    assert_ne!(r, Err(DefineError::NotFound));
}

#[test]
fn test_gather_candidate_read_paths_filters_to_existing_files() {
    let mut fs = FsModel::empty();
    fs.create_dir("/b", true);
    fs.add_file("/b", "key", true, true, vec![String::from("x")]);
    let cfg = two_dir_config();

    assert_eq!(
        gather_candidate_read_paths(&fs, &cfg, "key"),
        vec![String::from("/b/key")]
    );
    assert_eq!(
        gather_candidate_read_paths(&fs, &cfg, "other"),
        Vec::<String>::new()
    );
}

#[test]
fn test_contains_exact_line() {
    let lines = vec![String::from("alpha"), String::from("beta")];
    assert!(contains_exact_line(&lines, "alpha"));
    assert!(contains_exact_line(&lines, "beta"));
    assert!(!contains_exact_line(&lines, "alph"));
    assert!(!contains_exact_line(&lines, "alphaa"));
    assert!(!contains_exact_line(&lines, ""));
}

#[test]
fn test_materialize_path_creates_missing_directory() {
    let mut fs = FsModel::empty();
    materialize_path(&mut fs, "/somewhere");
    assert!(fs.dir_exists("/somewhere"));
    assert!(fs.dir_writable("/somewhere"));

    // An existing directory is left untouched, including its rights.
    fs.create_dir("/closed", false);
    materialize_path(&mut fs, "/closed");
    assert!(!fs.dir_writable("/closed"));
}

#[test]
fn test_store_on_appropriate_path_uses_first_writable() {
    let mut fs = FsModel::empty();
    fs.create_dir("/x", false);
    let dirs = vec![String::from("/x"), String::from("/y")];

    let r = store_on_appropriate_path(&mut fs, &dirs, "key", "v");

    assert_eq!(r, Ok(String::from("v\n")));
    assert!(fs.file_exists("/y", "key"));
}

#[test]
fn test_load_from_appropriate_path_first_readable_wins() {
    let mut fs = FsModel::empty();
    fs.create_dir("/x", true);
    fs.create_dir("/y", true);
    fs.add_file("/y", "key", true, true, vec![String::from("later")]);
    let dirs = vec![String::from("/x"), String::from("/y")];

    assert_eq!(
        load_from_appropriate_path(&fs, &dirs, "key"),
        Some(String::from("later\n"))
    );
    assert_eq!(load_from_appropriate_path(&fs, &dirs, "none"), None);
}

#[test]
fn test_store_with_multiline_file() {
    let mut fs = FsModel::empty();
    fs.create_dir("/a", true);
    fs.add_file(
        "/a",
        "key",
        true,
        true,
        vec![String::from("one"), String::from("two")],
    );
    let cfg = two_dir_config();

    // An exact match anywhere in the file is deduplicated and the whole
    // current content is returned.
    assert_eq!(
        store(&mut fs, &cfg, "key", "two"),
        Ok(String::from("one\ntwo\n"))
    );
}

#[test]
fn test_store_with_default_directories_uses_home() {
    let mut fs = FsModel::empty();
    let cfg = Config {
        override_paths: None,
        home: String::from("/home/u"),
    };

    let r = store(&mut fs, &cfg, "key", "v");

    assert_eq!(r, Ok(String::from("v\n")));
    assert!(fs.dir_exists("/home/u/.config/define"));
    assert!(fs.file_exists("/home/u/.config/define", "key"));
}

#[test]
fn test_error_messages_are_distinct() {
    assert_ne!(
        DefineError::NotFound.message(),
        DefineError::NoDeleteCandidate.message()
    );
    assert_ne!(
        DefineError::NotFound.message(),
        DefineError::WriteFailure.message()
    );
}
