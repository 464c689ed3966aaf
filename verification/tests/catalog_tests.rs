use define::catalog::{list_everything, process_everything};
use define::engine::DefineError;
use define::fs::FsModel;
use define::resolver::Config;

fn cfg_over(paths: &str) -> Config {
    Config {
        override_paths: Some(String::from(paths)),
        home: String::from("/home/u"),
    }
}

fn overlapping_fs() -> FsModel {
    let mut fs = FsModel::empty();
    fs.create_dir("/a", true);
    fs.create_dir("/b", true);
    fs.add_file("/a", "zebra", true, true, vec![String::from("stripes")]);
    fs.add_file("/a", "apple", true, true, vec![String::from("fruit")]);
    fs.add_file("/b", "apple", true, true, vec![String::from("also a fruit")]);
    fs.add_file("/b", "mango", true, true, vec![String::from("tropical")]);
    fs
}

#[test]
fn test_process_everything_dedups_and_sorts() {
    let fs = overlapping_fs();

    let keys = process_everything(&fs, &cfg_over("/a:/b"));

    assert_eq!(
        keys,
        vec![
            String::from("apple"),
            String::from("mango"),
            String::from("zebra"),
        ]
    );
}

#[test]
fn test_process_everything_independent_of_scan_order() {
    let fs = overlapping_fs();

    let forward = process_everything(&fs, &cfg_over("/a:/b"));
    let backward = process_everything(&fs, &cfg_over("/b:/a"));

    assert_eq!(forward, backward);
}

#[test]
fn test_process_everything_skips_missing_directory() {
    let fs = overlapping_fs();

    // "/ghost" does not exist: it contributes nothing and does not abort.
    let keys = process_everything(&fs, &cfg_over("/ghost:/b"));

    assert_eq!(keys, vec![String::from("apple"), String::from("mango")]);
}

#[test]
fn test_process_everything_empty() {
    let fs = FsModel::empty();
    let keys = process_everything(&fs, &cfg_over("/a:/b"));
    assert_eq!(keys, Vec::<String>::new());
}

#[test]
fn test_list_everything_pairs_keys_with_content() {
    let fs = overlapping_fs();

    let listing = list_everything(&fs, &cfg_over("/a:/b")).unwrap();

    assert_eq!(
        listing,
        vec![
            (String::from("apple"), String::from("fruit\n")),
            (String::from("mango"), String::from("tropical\n")),
            (String::from("zebra"), String::from("stripes\n")),
        ]
    );
}

#[test]
fn test_list_everything_shadowing_follows_lookup() {
    let fs = overlapping_fs();

    // Scanning "/b" first makes its "apple" the one a lookup returns.
    let listing = list_everything(&fs, &cfg_over("/b:/a")).unwrap();

    assert_eq!(
        listing[0],
        (String::from("apple"), String::from("also a fruit\n"))
    );
}

#[test]
fn test_list_everything_unreadable_definition_aborts() {
    let mut fs = FsModel::empty();
    fs.create_dir("/a", true);
    fs.add_file("/a", "sealed", false, true, vec![String::from("secret")]);

    let r = list_everything(&fs, &cfg_over("/a"));

    assert_eq!(r, Err(DefineError::NotFound));
}
