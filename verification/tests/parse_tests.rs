use languagetool_code_comments::language::{get_language_config, Languages};
use languagetool_code_comments::parse::{
    build_code_comments, collect_tree_items, embedded_count, parse_tree, splice_embedded,
    walk_allowed, CommentLeaf, SyntaxNode, TreeItem,
};

/// A node spanning `text` of `source`, found by its first occurrence.
fn leaf(source: &str, kind: &str, text: &str) -> SyntaxNode {
    let start = source.find(text).unwrap();
    let before = &source[..start];
    let row = before.matches('\n').count();
    let column = start - before.rfind('\n').map(|i| i + 1).unwrap_or(0);
    SyntaxNode {
        kind: kind.to_string(),
        start_byte: start,
        end_byte: start + text.len(),
        start_row: row,
        start_column: column,
        children: vec![],
    }
}

fn inner(kind: &str, children: Vec<SyntaxNode>) -> SyntaxNode {
    let start = children.first().map(|c| c.start_byte).unwrap_or(0);
    let end = children.last().map(|c| c.end_byte).unwrap_or(0);
    let (row, column) = children.first().map(|c| (c.start_row, c.start_column)).unwrap_or((0, 0));
    SyntaxNode { kind: kind.to_string(), start_byte: start, end_byte: end, start_row: row, start_column: column, children }
}

fn walk(lang: Languages, root: &SyntaxNode, source: &str, row: usize, column: usize) -> Vec<TreeItem> {
    let config = get_language_config(lang);
    assert!(walk_allowed(&config, root, "", source, row, column).0);
    let mut items = Vec::new();
    let kind = collect_tree_items(&config, &mut items, root, "", source, row, column);
    assert_eq!(kind, if root.children.is_empty() { root.kind.clone() } else { String::new() });
    items
}

fn comments_of(items: &[TreeItem]) -> Vec<CommentLeaf> {
    items
        .iter()
        .map(|i| match i {
            TreeItem::Comment(c) => c.clone(),
            TreeItem::Embedded(_) => panic!("unexpected embedded source"),
        })
        .collect()
}

const BASH: &str = "#!/bin/bash\n# I am comment number one.\necho hi # I am comment number two.\n";

fn bash_tree() -> SyntaxNode {
    inner(
        "program",
        vec![
            leaf(BASH, "comment", "#!/bin/bash"),
            leaf(BASH, "comment", "# I am comment number one."),
            inner("command", vec![leaf(BASH, "word", "echo"), leaf(BASH, "word", "hi")]),
            leaf(BASH, "comment", "# I am comment number two."),
        ],
    )
}

#[test]
fn bash_script_comments_without_shebang() {
    let items = walk(Languages::Bash, &bash_tree(), BASH, 0, 0);
    let leaves = comments_of(&items);
    assert_eq!(leaves.len(), 3);
    assert_eq!(leaves[0].text, "#!/bin/bash");
    let res = build_code_comments("./tests/fixtures/bash.sh", &leaves);
    assert_eq!(res.len(), 2);
    assert_eq!(res[0].text, "# I am comment number one.");
    assert_eq!((res[0].start_row, res[0].start_column), (1, 0));
    assert_eq!(res[1].text, "# I am comment number two.");
    assert_eq!((res[1].start_row, res[1].start_column), (2, 8));
}

#[test]
fn shebang_kept_outside_shell_scripts() {
    let leaves = comments_of(&walk(Languages::Bash, &bash_tree(), BASH, 0, 0));
    let res = build_code_comments("./tests/fixtures/script.py", &leaves);
    assert_eq!(res.len(), 3);
    assert_eq!(res[0].text, "#!/bin/bash");
}

const JS: &str = "/**\n  * I am comment number one.\n  */\nconst a = 1; // I am comment number two.\n";

#[test]
fn javascript_block_and_line_comments() {
    let root = inner(
        "program",
        vec![
            leaf(JS, "comment", "/**\n  * I am comment number one.\n  */"),
            inner(
                "lexical_declaration",
                vec![leaf(JS, "const", "const"), leaf(JS, "identifier", "a"), leaf(JS, ";", ";")],
            ),
            leaf(JS, "comment", "// I am comment number two."),
        ],
    );
    let leaves = comments_of(&walk(Languages::Javascript, &root, JS, 0, 0));
    let res = build_code_comments("./tests/fixtures/javascript.js", &leaves);
    assert_eq!(res.len(), 2);
    assert_eq!(res[0].text, "/**\n  * I am comment number one.\n  */");
    assert_eq!(res[1].text, "// I am comment number two.");
    assert_eq!((res[1].start_row, res[1].start_column), (3, 13));
}

const RUST: &str = "// I am comment number one.\nfn main() {} // I am comment number two.\n";

#[test]
fn rust_line_comments() {
    let root = inner(
        "source_file",
        vec![
            leaf(RUST, "line_comment", "// I am comment number one."),
            inner("function_item", vec![leaf(RUST, "fn", "fn"), leaf(RUST, "identifier", "main")]),
            leaf(RUST, "line_comment", "// I am comment number two."),
        ],
    );
    let leaves = comments_of(&walk(Languages::Rust, &root, RUST, 0, 0));
    let res = build_code_comments("./tests/fixtures/rust.rs", &leaves);
    assert_eq!(res.len(), 2);
    assert_eq!(res[0].text, "// I am comment number one.");
}

#[test]
fn empty_leaves_and_other_kinds_yield_nothing() {
    let source = "x";
    let mut empty = leaf(source, "comment", "x");
    empty.end_byte = empty.start_byte;
    let root = inner("program", vec![empty, leaf(source, "identifier", "x")]);
    assert!(walk(Languages::Go, &root, source, 0, 0).is_empty());
}

#[test]
fn multibyte_comment_text_is_sliced_by_bytes() {
    let source = "# héllo wörld\n";
    let root = inner("program", vec![leaf(source, "comment", "# héllo wörld")]);
    let leaves = comments_of(&walk(Languages::Python, &root, source, 0, 0));
    assert_eq!(leaves[0].text, "# héllo wörld");
}

#[test]
fn slicing_inside_a_character_is_not_allowed() {
    let source = "# é";
    let mut node = leaf(source, "comment", "# é");
    node.end_byte = node.end_byte - 1;
    let config = get_language_config(Languages::Python);
    assert!(!walk_allowed(&config, &node, "", source, 0, 0).0);
    let mut fine = leaf(source, "comment", "# é");
    fine.kind = "identifier".to_string();
    fine.end_byte = fine.end_byte - 1;
    assert!(walk_allowed(&config, &fine, "", source, 0, 0).0);
}

#[test]
fn positions_overflowing_usize_are_not_allowed() {
    let source = "# a";
    let node = leaf(source, "comment", "# a");
    let config = get_language_config(Languages::Python);
    assert!(walk_allowed(&config, &node, "", source, usize::MAX, 0).0);
    let mut low = leaf(source, "comment", "# a");
    low.start_row = 1;
    assert!(!walk_allowed(&config, &low, "", source, usize::MAX, 0).0);
}

#[test]
fn parse_tree_appends_the_comments() {
    let config = get_language_config(Languages::Bash);
    let mut vector = vec![CommentLeaf { text: "kept".to_string(), row: 9, column: 9 }];
    parse_tree(&config, &mut vector, &bash_tree(), "", BASH, 0, 0, &vec![]);
    let texts: Vec<&str> = vector.iter().map(|l| l.text.as_str()).collect();
    assert_eq!(
        texts,
        vec!["kept", "#!/bin/bash", "# I am comment number one.", "# I am comment number two."]
    );
    assert_eq!((vector[0].row, vector[0].column), (9, 9));
}

#[test]
fn walk_positions_shift_with_the_start() {
    let at_origin = comments_of(&walk(Languages::Bash, &bash_tree(), BASH, 0, 0));
    let shifted = comments_of(&walk(Languages::Bash, &bash_tree(), BASH, 10, 4));
    assert_eq!(at_origin.len(), shifted.len());
    for (a, b) in at_origin.iter().zip(shifted.iter()) {
        assert_eq!(a.text, b.text);
        assert_eq!(a.row + 10, b.row);
        assert_eq!(a.column + 4, b.column);
    }
}

const ASTRO: &str = "---\n// I am in the front matter.\nconst a = 1;\n---\n<!-- page -->\n";

#[test]
fn astro_front_matter_is_embedded_typescript() {
    let front = "\n// I am in the front matter.\nconst a = 1;\n";
    let mut open = leaf(ASTRO, "---", "---");
    open.end_byte = 3;
    let mut raw = leaf(ASTRO, "raw_text", front);
    raw.start_byte = 3;
    let root = inner("document", vec![inner("frontmatter", vec![open, raw]), leaf(ASTRO, "comment", "<!-- page -->")]);
    let items = walk(Languages::Astro, &root, ASTRO, 0, 0);
    assert_eq!(items.len(), 2);
    match &items[0] {
        TreeItem::Embedded(e) => {
            assert_eq!(e.language, Languages::Typescript);
            assert_eq!(e.text, front);
            assert_eq!((e.row, e.column), (0, 3));
        }
        TreeItem::Comment(_) => panic!("expected embedded source"),
    }
    assert_eq!(embedded_count(&items), 1);
    let inner_leaves = vec![CommentLeaf { text: "// I am in the front matter.".to_string(), row: 1, column: 0 }];
    let leaves = splice_embedded(&items, &vec![inner_leaves.clone()]);
    assert_eq!(leaves.len(), 2);
    assert_eq!(leaves[0].text, "// I am in the front matter.");
    assert_eq!(leaves[1].text, "<!-- page -->");

    let config = get_language_config(Languages::Astro);
    let mut vector = vec![CommentLeaf { text: "# earlier".to_string(), row: 0, column: 0 }];
    let kind = parse_tree(&config, &mut vector, &root, "", ASTRO, 0, 0, &vec![inner_leaves]);
    assert_eq!(kind, "");
    let texts: Vec<&str> = vector.iter().map(|l| l.text.as_str()).collect();
    assert_eq!(texts, vec!["# earlier", "// I am in the front matter.", "<!-- page -->"]);
}

#[test]
fn raw_text_without_the_prefix_is_not_embedded() {
    let source = "xx---";
    let raw = leaf(source, "raw_text", "xx");
    let dashes = leaf(source, "---", "---");
    let root = inner("document", vec![raw, dashes]);
    assert!(walk(Languages::Astro, &root, source, 0, 0).is_empty());
}

#[test]
fn splice_keeps_order_and_counts() {
    let c = |t: &str| CommentLeaf { text: t.to_string(), row: 0, column: 0 };
    let e = |t: &str| {
        TreeItem::Embedded(languagetool_code_comments::parse::EmbeddedSource {
            language: Languages::Typescript,
            text: t.to_string(),
            row: 0,
            column: 0,
        })
    };
    let items = vec![TreeItem::Comment(c("a")), e("x"), TreeItem::Comment(c("b")), e("y")];
    let out = splice_embedded(&items, &vec![vec![c("x1"), c("x2")], vec![]]);
    let texts: Vec<&str> = out.iter().map(|l| l.text.as_str()).collect();
    assert_eq!(texts, vec!["a", "x1", "x2", "b"]);
}

#[test]
fn checksums_are_xxh3_of_the_text() {
    let leaves = vec![
        CommentLeaf { text: "# same".to_string(), row: 0, column: 0 },
        CommentLeaf { text: "# other".to_string(), row: 1, column: 0 },
        CommentLeaf { text: "# same".to_string(), row: 2, column: 0 },
    ];
    let res = build_code_comments("main.py", &leaves);
    assert_eq!(res.len(), 3);
    assert_eq!(res[0].text_checksum, xxhash_rust::xxh3::xxh3_64("# same".as_bytes()));
    assert_ne!(res[0].text_checksum, 0);
    assert_eq!(res[0].text_checksum, res[2].text_checksum);
    assert_ne!(res[0].text_checksum, res[1].text_checksum);
}
