use languagetool_code_comments::cache::cache_file_name;

#[test]
fn cache_file_is_named_by_the_path_hash() {
    for path in ["/home/me/project/main.rs", "", "./tests/fixtures/commands/code.py"] {
        let expected = format!("{}.json", xxhash_rust::xxh3::xxh3_64(path.as_bytes()));
        assert_eq!(cache_file_name(path), expected);
    }
    assert_ne!(cache_file_name("a.rs"), cache_file_name("b.rs"));
}
