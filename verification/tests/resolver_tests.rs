use define::resolver::{
    default_templates, expand_content_paths, expand_default_content_paths, expand_default_paths,
    expand_supplied_paths, gather_candidate_paths, list_content_paths, normalize_key, Config,
};
use define::strutil::{join_path, split_paths, str_lt, tilde_expand};

#[test]
fn test_expand_supplied_paths() {
    let input_paths = "/tmp:/tmp/other:/tmp/other/stuff";
    let input_key = "FOO";

    let output = expand_supplied_paths(input_paths, input_key);

    let expected = vec![
        String::from("/tmp/FOO"),
        String::from("/tmp/other/FOO"),
        String::from("/tmp/other/stuff/FOO"),
    ];

    assert_eq!(output, expected);
}

#[test]
fn test_expand_default_paths() {
    let home = "/home/someone";
    let output = expand_default_paths(home, "FOO");

    let expected = vec![
        String::from("/home/someone/.config/define/FOO"),
        String::from("/home/someone/.define/FOO"),
        String::from("/etc/define/FOO"),
    ];

    assert_eq!(output, expected);
}

#[test]
fn test_default_templates_order() {
    let templates = default_templates();
    assert_eq!(
        templates,
        vec![
            String::from("~/.config/define"),
            String::from("~/.define"),
            String::from("/etc/define"),
        ]
    );
}

#[test]
fn test_expand_default_content_paths_no_key() {
    let output = expand_default_content_paths("/root");
    assert_eq!(
        output,
        vec![
            String::from("/root/.config/define"),
            String::from("/root/.define"),
            String::from("/etc/define"),
        ]
    );
}

#[test]
fn test_expand_content_paths_splits_verbatim() {
    let output = expand_content_paths("/a:/b");
    assert_eq!(output, vec![String::from("/a"), String::from("/b")]);
}

#[test]
fn test_split_paths_keeps_empty_segments() {
    assert_eq!(split_paths(""), vec![String::from("")]);
    assert_eq!(
        split_paths("a::b"),
        vec![String::from("a"), String::from(""), String::from("b")]
    );
    assert_eq!(
        split_paths("/x:"),
        vec![String::from("/x"), String::from("")]
    );
}

#[test]
fn test_tilde_expand() {
    assert_eq!(tilde_expand("~", "/home/u"), "/home/u");
    assert_eq!(tilde_expand("~/notes", "/home/u"), "/home/u/notes");
    assert_eq!(tilde_expand("/etc/define", "/home/u"), "/etc/define");
    assert_eq!(tilde_expand("~user/notes", "/home/u"), "~user/notes");
    assert_eq!(tilde_expand("", "/home/u"), "");
}

#[test]
fn test_join_path() {
    assert_eq!(join_path("/a", "k"), "/a/k");
    assert_eq!(join_path("", "k"), "/k");
}

#[test]
fn test_gather_candidate_paths_with_override() {
    let cfg = Config {
        override_paths: Some(String::from("/one:/two")),
        home: String::from("/home/u"),
    };
    assert_eq!(
        gather_candidate_paths(&cfg, "word"),
        vec![String::from("/one/word"), String::from("/two/word")]
    );
}

#[test]
fn test_gather_candidate_paths_default() {
    let cfg = Config {
        override_paths: None,
        home: String::from("/home/u"),
    };
    assert_eq!(
        gather_candidate_paths(&cfg, "word"),
        vec![
            String::from("/home/u/.config/define/word"),
            String::from("/home/u/.define/word"),
            String::from("/etc/define/word"),
        ]
    );
}

#[test]
fn test_list_content_paths_with_override() {
    let cfg = Config {
        override_paths: Some(String::from("/one:/two")),
        home: String::from("/home/u"),
    };
    assert_eq!(
        list_content_paths(&cfg),
        vec![String::from("/one"), String::from("/two")]
    );
}

#[test]
fn test_normalize_key_lowercases_by_default() {
    assert_eq!(normalize_key("FOO", false), "foo");
    assert_eq!(normalize_key("MiXeD", false), "mixed");
    assert_eq!(normalize_key("already", false), "already");
}

#[test]
fn test_normalize_key_caseful_keeps_casing() {
    assert_eq!(normalize_key("FOO", true), "FOO");
    assert_eq!(normalize_key("MiXeD", true), "MiXeD");
}

#[test]
fn test_str_lt_order() {
    assert!(str_lt("a", "b"));
    assert!(str_lt("a", "ab"));
    assert!(!str_lt("b", "a"));
    assert!(!str_lt("a", "a"));
    assert!(str_lt("", "a"));
    assert!(str_lt("Z", "a"));
}
