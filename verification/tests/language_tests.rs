use languagetool_code_comments::language::{
    file_extension, get_language_config, get_language_from_filepath, language_for_key,
    language_from_file_name, Languages,
};

#[test]
fn test_error() {
    let res = get_language_from_filepath("./tests/fixtures/fail.txt");
    assert!(res.is_err());
    let e = res.unwrap_err();
    assert_eq!(e.filepath, "./tests/fixtures/fail.txt");
    assert_eq!(e.to_string(), "Can not detect language for file ./tests/fixtures/fail.txt");
}

#[test]
fn fixture_paths_detect_their_languages() {
    let cases = [
        ("./tests/fixtures/bash.sh", Languages::Bash),
        ("./tests/fixtures/css.css", Languages::Css),
        ("./tests/fixtures/golang.go", Languages::Go),
        ("./tests/fixtures/hcl.tf", Languages::Hcl),
        ("./tests/fixtures/javascript.js", Languages::Javascript),
        ("./tests/fixtures/javascript-react.jsx", Languages::Javascript),
        ("./tests/fixtures/typescript.ts", Languages::Typescript),
        ("./tests/fixtures/typescript-react.tsx", Languages::Tsx),
        ("./tests/fixtures/python.py", Languages::Python),
        ("./tests/fixtures/rust.rs", Languages::Rust),
        ("./tests/fixtures/commands/code.py", Languages::Python),
    ];
    for (path, lang) in cases {
        assert_eq!(get_language_from_filepath(path).unwrap(), lang, "{}", path);
    }
}

#[test]
fn every_extension_of_the_table() {
    let cases = [
        ("astro", Languages::Astro),
        ("sh", Languages::Bash),
        ("css", Languages::Css),
        ("go", Languages::Go),
        ("html", Languages::Html),
        ("js", Languages::Javascript),
        ("jsx", Languages::Javascript),
        ("lua", Languages::Lua),
        ("nix", Languages::Nix),
        ("toml", Languages::Toml),
        ("ts", Languages::Typescript),
        ("tsx", Languages::Tsx),
        ("py", Languages::Python),
        ("rs", Languages::Rust),
        ("sql", Languages::Sql),
        ("tf", Languages::Hcl),
        ("yaml", Languages::Yaml),
        ("yml", Languages::Yaml),
        ("Dockerfile", Languages::Docker),
        ("Makefile", Languages::Make),
    ];
    for (key, lang) in cases {
        assert_eq!(language_for_key(key), Some(lang), "{}", key);
    }
    assert_eq!(language_for_key("txt"), None);
    assert_eq!(language_for_key("RS"), None);
    assert_eq!(language_for_key(""), None);
}

#[test]
fn file_names_without_extension_detect_by_name() {
    assert_eq!(get_language_from_filepath("Dockerfile").unwrap(), Languages::Docker);
    assert_eq!(get_language_from_filepath("/srv/app/Makefile").unwrap(), Languages::Make);
    assert!(get_language_from_filepath("/home/me/.bashrc").is_err());
    assert!(get_language_from_filepath("notes.").is_err());
    assert!(get_language_from_filepath("/").is_err());
    assert!(get_language_from_filepath("src/..").is_err());
    assert_eq!(get_language_from_filepath("deploy/values.yml").unwrap(), Languages::Yaml);
    assert_eq!(get_language_from_filepath("a.b/main.tf").unwrap(), Languages::Hcl);
}

#[test]
fn language_from_file_name_uses_extension_then_name() {
    assert_eq!(language_from_file_name(Some("main.go")), Some(Languages::Go));
    assert_eq!(language_from_file_name(Some("Makefile")), Some(Languages::Make));
    assert_eq!(language_from_file_name(Some("Dockerfile.rs")), Some(Languages::Rust));
    assert_eq!(language_from_file_name(None), None);
}

#[test]
fn extensions_follow_std() {
    assert_eq!(file_extension("archive.tar.gz"), Some("gz"));
    assert_eq!(file_extension("main.rs"), Some("rs"));
    assert_eq!(file_extension(".bashrc"), None);
    assert_eq!(file_extension("..hidden"), Some("hidden"));
    assert_eq!(file_extension("notes."), Some(""));
    assert_eq!(file_extension(".."), None);
    assert_eq!(file_extension("README"), None);
    for name in ["archive.tar.gz", ".bashrc", "notes.", "README", "a.b.c", "...x", "é.rs"] {
        let std_ext = std::path::Path::new(name).extension().and_then(|e| e.to_str());
        assert_eq!(file_extension(name), std_ext, "{}", name);
    }
}

#[test]
fn only_astro_embeds_another_language() {
    let astro = get_language_config(Languages::Astro);
    assert_eq!(astro.in_source_languages, vec![Languages::Typescript]);
    assert_eq!(astro.in_source_node_kind, "raw_text");
    assert_eq!(astro.in_source_node_kind_prefix, "---");
    for lang in [Languages::Bash, Languages::Rust, Languages::Typescript, Languages::Yaml] {
        let config = get_language_config(lang);
        assert!(config.in_source_languages.is_empty());
        assert_eq!(config.in_source_node_kind, "");
        assert_eq!(config.in_source_node_kind_prefix, "");
    }
}
