//! The comment walk over a syntax tree, and the code comments made from the
//! comments it finds.

use vstd::prelude::*;
use vstd::string::StringSliceAdditionalSpecFns;
use vstd::utf8::*;

use crate::language::{LanguageConfig, Languages};
use crate::text::{has_prefix, has_suffix, str_eq, str_ends_with, str_starts_with};

verus! {

broadcast use vstd::utf8::group_utf8_lib;

/// A node of a concrete syntax tree, as a tree-sitter parser yields it:
/// its kind, the byte range it spans in the parsed source, the row and
/// column where it starts, and its children in source order.
#[derive(Debug)]
pub struct SyntaxNode {
    pub kind: String,
    pub start_byte: usize,
    pub end_byte: usize,
    pub start_row: usize,
    pub start_column: usize,
    pub children: Vec<SyntaxNode>,
}

/// A comment found in a syntax tree: its text and where it starts.
#[derive(Clone, Debug)]
pub struct CommentLeaf {
    pub text: String,
    pub row: usize,
    pub column: usize,
}

/// The mathematical value of a `CommentLeaf`.
pub struct CommentLeafView {
    pub text: Seq<char>,
    pub row: usize,
    pub column: usize,
}

impl View for CommentLeaf {
    type V = CommentLeafView;

    open spec fn view(&self) -> CommentLeafView {
        CommentLeafView { text: self.text@, row: self.row, column: self.column }
    }
}

/// Source of another language embedded in a leaf of the tree, to be read
/// with `language`; its rows and columns count from `row` and `column`.
#[derive(Clone, Debug)]
pub struct EmbeddedSource {
    pub language: Languages,
    pub text: String,
    pub row: usize,
    pub column: usize,
}

/// The mathematical value of an `EmbeddedSource`.
pub struct EmbeddedSourceView {
    pub language: Languages,
    pub text: Seq<char>,
    pub row: usize,
    pub column: usize,
}

impl View for EmbeddedSource {
    type V = EmbeddedSourceView;

    open spec fn view(&self) -> EmbeddedSourceView {
        EmbeddedSourceView {
            language: self.language,
            text: self.text@,
            row: self.row,
            column: self.column,
        }
    }
}

/// What the walk yields, in source order: a comment, or embedded source
/// whose comments belong at that place.
#[derive(Clone, Debug)]
pub enum TreeItem {
    Comment(CommentLeaf),
    Embedded(EmbeddedSource),
}

/// The mathematical value of a `TreeItem`.
pub enum TreeItemView {
    Comment(CommentLeafView),
    Embedded(EmbeddedSourceView),
}

impl View for TreeItem {
    type V = TreeItemView;

    open spec fn view(&self) -> TreeItemView {
        match self {
            TreeItem::Comment(c) => TreeItemView::Comment(c@),
            TreeItem::Embedded(e) => TreeItemView::Embedded(e@),
        }
    }
}

/// The values of a sequence of items.
pub open spec fn items_view(items: Seq<TreeItem>) -> Seq<TreeItemView> {
    items.map_values(|t: TreeItem| t@)
}

/// The outcome of walking a node or a run of siblings: the items found,
/// the kind to pass on to the next sibling, and whether the walk stays
/// within what the source allows (the ranges it slices fall on character
/// boundaries, and the positions it shifts stay within `usize`).
pub struct WalkOutcome {
    pub items: Seq<TreeItemView>,
    pub kind: Seq<char>,
    pub ok: bool,
}

/// Node kinds that are comments.
pub open spec fn is_comment_kind(kind: Seq<char>) -> bool {
    kind == "comment"@ || kind == "line_comment"@
}

/// The text of the byte range `[start, end)` of UTF-8 bytes `src`.
pub open spec fn byte_range_text(src: Seq<u8>, start: int, end: int) -> Seq<char> {
    decode_utf8(src.subrange(start, end))
}

/// Slicing `[start, end)` out of a string with UTF-8 bytes `src` succeeds.
pub open spec fn slices(src: Seq<u8>, start: int, end: int) -> bool {
    is_char_boundary(src, start) && is_char_boundary(src, end)
}

/// The item for source embedded at (`row`, `column`), read as `language`.
pub open spec fn embedded_item(
    language: Languages,
    text: Seq<char>,
    row: usize,
    column: usize,
) -> TreeItemView {
    TreeItemView::Embedded(EmbeddedSourceView { language, text, row, column })
}

/// The walk of a leaf node.
pub open spec fn walk_leaf(
    config: LanguageConfig,
    node: SyntaxNode,
    last_kind: Seq<char>,
    src: Seq<u8>,
    start_row: usize,
    start_column: usize,
) -> WalkOutcome {
    let kind = node.kind@;
    if node.start_byte >= node.end_byte {
        WalkOutcome { items: seq![], kind, ok: true }
    } else {
        let text = byte_range_text(src, node.start_byte as int, node.end_byte as int);
        let sliced = slices(src, node.start_byte as int, node.end_byte as int);
        let comment = is_comment_kind(kind);
        let comment_items = if comment {
            seq![
                TreeItemView::Comment(
                    CommentLeafView {
                        text,
                        row: (node.start_row + start_row) as usize,
                        column: (node.start_column + start_column) as usize,
                    },
                ),
            ]
        } else {
            seq![]
        };
        let comment_ok = comment ==> {
            &&& sliced
            &&& node.start_row + start_row <= usize::MAX
            &&& node.start_column + start_column <= usize::MAX
        };
        let embeds = config.in_source_languages@.len() > 0 && kind
            == config.in_source_node_kind@ && last_kind == config.in_source_node_kind_prefix@;
        let embedded_items = if embeds {
            config.in_source_languages@.map_values(
                |l: Languages| embedded_item(l, text, node.start_row, node.start_column),
            )
        } else {
            seq![]
        };
        WalkOutcome {
            items: comment_items + embedded_items,
            kind,
            ok: comment_ok && (embeds ==> sliced),
        }
    }
}

/// The walk of a node: a leaf as `walk_leaf` says; an inner node walks its
/// children in order, each child receiving the kind its previous sibling
/// passed on, and passes on the empty kind.
pub open spec fn walk_node(
    config: LanguageConfig,
    node: SyntaxNode,
    last_kind: Seq<char>,
    src: Seq<u8>,
    start_row: usize,
    start_column: usize,
) -> WalkOutcome
    decreases node, 1int,
{
    if node.children.len() == 0 {
        walk_leaf(config, node, last_kind, src, start_row, start_column)
    } else {
        let inner = walk_siblings(config, node.children@, seq![], src, start_row, start_column);
        WalkOutcome { items: inner.items, kind: seq![], ok: inner.ok }
    }
}

/// The walk of a run of siblings, the first of them receiving `last_kind`.
pub open spec fn walk_siblings(
    config: LanguageConfig,
    nodes: Seq<SyntaxNode>,
    last_kind: Seq<char>,
    src: Seq<u8>,
    start_row: usize,
    start_column: usize,
) -> WalkOutcome
    decreases nodes, 0int,
{
    if nodes.len() == 0 {
        WalkOutcome { items: seq![], kind: last_kind, ok: true }
    } else {
        let first = walk_node(config, nodes[0], last_kind, src, start_row, start_column);
        let rest = walk_siblings(
            config,
            nodes.drop_first(),
            first.kind,
            src,
            start_row,
            start_column,
        );
        WalkOutcome { items: first.items + rest.items, kind: rest.kind, ok: first.ok && rest.ok }
    }
}

/// Comment positions moved by (`rows`, `columns`); embedded sources keep
/// theirs.
pub open spec fn shift_items(items: Seq<TreeItemView>, rows: usize, columns: usize) -> Seq<
    TreeItemView,
> {
    items.map_values(
        |t: TreeItemView|
            match t {
                TreeItemView::Comment(c) => TreeItemView::Comment(
                    CommentLeafView {
                        text: c.text,
                        row: (c.row + rows) as usize,
                        column: (c.column + columns) as usize,
                    },
                ),
                TreeItemView::Embedded(e) => TreeItemView::Embedded(e),
            },
    )
}

/// Law: where a walk starts counting rows and columns only moves the
/// comments it finds. Walking from (`rows`, `columns`) finds the comments
/// that walking from (0, 0) finds, in the same order, each moved by
/// `rows` and `columns`; the embedded sources and the kind passed on are
/// the same.
pub proof fn law_walk_position_shift(
    config: LanguageConfig,
    node: SyntaxNode,
    last_kind: Seq<char>,
    src: Seq<u8>,
    rows: usize,
    columns: usize,
)
    requires
        walk_node(config, node, last_kind, src, rows, columns).ok,
    ensures
        walk_node(config, node, last_kind, src, 0, 0).ok,
        walk_node(config, node, last_kind, src, rows, columns).items == shift_items(
            walk_node(config, node, last_kind, src, 0, 0).items,
            rows,
            columns,
        ),
        walk_node(config, node, last_kind, src, rows, columns).kind == walk_node(
            config,
            node,
            last_kind,
            src,
            0,
            0,
        ).kind,
    decreases node, 1int,
{
    if node.children.len() == 0 {
        let a = walk_node(config, node, last_kind, src, rows, columns);
        let b = walk_node(config, node, last_kind, src, 0, 0);
        assert(a.items =~= shift_items(b.items, rows, columns));
    } else {
        lemma_siblings_position_shift(config, node.children@, seq![], src, rows, columns);
    }
}

/// `law_walk_position_shift` for a run of siblings.
pub proof fn lemma_siblings_position_shift(
    config: LanguageConfig,
    nodes: Seq<SyntaxNode>,
    last_kind: Seq<char>,
    src: Seq<u8>,
    rows: usize,
    columns: usize,
)
    requires
        walk_siblings(config, nodes, last_kind, src, rows, columns).ok,
    ensures
        walk_siblings(config, nodes, last_kind, src, 0, 0).ok,
        walk_siblings(config, nodes, last_kind, src, rows, columns).items == shift_items(
            walk_siblings(config, nodes, last_kind, src, 0, 0).items,
            rows,
            columns,
        ),
        walk_siblings(config, nodes, last_kind, src, rows, columns).kind == walk_siblings(
            config,
            nodes,
            last_kind,
            src,
            0,
            0,
        ).kind,
    decreases nodes, 0int,
{
    if nodes.len() == 0 {
        assert(shift_items(seq![], rows, columns) =~= seq![]);
    } else {
        law_walk_position_shift(config, nodes[0], last_kind, src, rows, columns);
        let first = walk_node(config, nodes[0], last_kind, src, 0, 0);
        lemma_siblings_position_shift(config, nodes.drop_first(), first.kind, src, rows, columns);
        let rest = walk_siblings(config, nodes.drop_first(), first.kind, src, 0, 0);
        assert(shift_items(first.items + rest.items, rows, columns) =~= shift_items(
            first.items,
            rows,
            columns,
        ) + shift_items(rest.items, rows, columns));
    }
}

/// A non-empty byte range between character boundaries of valid UTF-8
/// holds at least one character.
proof fn lemma_range_text_not_empty(src: Seq<u8>, start: int, end: int)
    requires
        valid_utf8(src),
        0 <= start < end,
        slices(src, start, end),
    ensures
        byte_range_text(src, start, end).len() > 0,
{
    assert(end <= src.len());
    let head = src.subrange(0, end);
    valid_utf8_split(src, end);
    if start > 0 {
        is_char_boundary_iff_not_is_continuation_byte(src, start);
        is_char_boundary_iff_not_is_continuation_byte(head, start);
    }
    assert(is_char_boundary(head, start));
    valid_utf8_split(head, start);
    let sub = src.subrange(start, end);
    assert(head.subrange(start, head.len() as int) =~= sub);
    decode_utf8_encode_utf8(sub);
    if decode_utf8(sub).len() == 0 {
        assert(decode_utf8(sub) =~= Seq::<char>::empty());
        assert(encode_utf8(Seq::<char>::empty()) =~= Seq::<u8>::empty());
    }
}

/// Law: every comment the walk finds has a non-empty text.
pub proof fn law_comment_texts_not_empty(
    config: LanguageConfig,
    node: SyntaxNode,
    last_kind: Seq<char>,
    src: Seq<u8>,
    rows: usize,
    columns: usize,
)
    requires
        valid_utf8(src),
        walk_node(config, node, last_kind, src, rows, columns).ok,
    ensures
        forall|i: int|
            0 <= i < walk_node(config, node, last_kind, src, rows, columns).items.len() ==> (
            #[trigger] walk_node(config, node, last_kind, src, rows, columns).items[i] matches TreeItemView::Comment(c)
                ==> c.text.len() > 0),
    decreases node, 1int,
{
    if node.children.len() == 0 {
        if node.start_byte < node.end_byte && is_comment_kind(node.kind@) {
            lemma_range_text_not_empty(src, node.start_byte as int, node.end_byte as int);
        }
    } else {
        lemma_sibling_texts_not_empty(config, node.children@, seq![], src, rows, columns);
    }
}

/// `law_comment_texts_not_empty` for a run of siblings.
pub proof fn lemma_sibling_texts_not_empty(
    config: LanguageConfig,
    nodes: Seq<SyntaxNode>,
    last_kind: Seq<char>,
    src: Seq<u8>,
    rows: usize,
    columns: usize,
)
    requires
        valid_utf8(src),
        walk_siblings(config, nodes, last_kind, src, rows, columns).ok,
    ensures
        forall|i: int|
            0 <= i < walk_siblings(config, nodes, last_kind, src, rows, columns).items.len() ==> (
            #[trigger] walk_siblings(config, nodes, last_kind, src, rows, columns).items[i] matches TreeItemView::Comment(c)
                ==> c.text.len() > 0),
    decreases nodes, 0int,
{
    if nodes.len() > 0 {
        law_comment_texts_not_empty(config, nodes[0], last_kind, src, rows, columns);
        let first = walk_node(config, nodes[0], last_kind, src, rows, columns);
        lemma_sibling_texts_not_empty(config, nodes.drop_first(), first.kind, src, rows, columns);
        let rest = walk_siblings(config, nodes.drop_first(), first.kind, src, rows, columns);
        let all = walk_siblings(config, nodes, last_kind, src, rows, columns).items;
        assert forall|i: int| 0 <= i < all.len() implies (#[trigger] all[i] matches TreeItemView::Comment(c)
            ==> c.text.len() > 0) by {
            if i < first.items.len() {
                assert(all[i] == first.items[i]);
            } else {
                assert(all[i] == rest.items[i - first.items.len()]);
            }
        }
    }
}

/// The leaves of a syntax tree, at any depth, in source order.
pub open spec fn tree_leaves(node: SyntaxNode) -> Seq<SyntaxNode>
    decreases node, 1int,
{
    if node.children.len() == 0 {
        seq![node]
    } else {
        forest_leaves(node.children@)
    }
}

/// The leaves of a run of sibling trees, in source order.
pub open spec fn forest_leaves(nodes: Seq<SyntaxNode>) -> Seq<SyntaxNode>
    decreases nodes, 0int,
{
    if nodes.len() == 0 {
        seq![]
    } else {
        tree_leaves(nodes[0]) + forest_leaves(nodes.drop_first())
    }
}

/// The comments among `leaves`, in order: each leaf of kind `comment` or
/// `line_comment` with a non-empty byte range gives the text of that range
/// of `src`, at its row and column moved by (`rows`, `columns`).
pub open spec fn comments_in_leaves(
    leaves: Seq<SyntaxNode>,
    src: Seq<u8>,
    rows: usize,
    columns: usize,
) -> Seq<CommentLeafView>
    decreases leaves.len(),
{
    if leaves.len() == 0 {
        seq![]
    } else {
        let rest = comments_in_leaves(leaves.drop_last(), src, rows, columns);
        let l = leaves.last();
        if (l.kind@ == "comment"@ || l.kind@ == "line_comment"@) && l.start_byte < l.end_byte {
            rest.push(
                CommentLeafView {
                    text: decode_utf8(src.subrange(l.start_byte as int, l.end_byte as int)),
                    row: (l.start_row + rows) as usize,
                    column: (l.start_column + columns) as usize,
                },
            )
        } else {
            rest
        }
    }
}

/// The comments among walk items, in order (embedded sources left out).
pub open spec fn found_comments(items: Seq<TreeItemView>) -> Seq<CommentLeafView>
    decreases items.len(),
{
    if items.len() == 0 {
        seq![]
    } else {
        let rest = found_comments(items.drop_last());
        match items.last() {
            TreeItemView::Comment(c) => rest.push(c),
            TreeItemView::Embedded(_) => rest,
        }
    }
}

/// `found_comments` distributes over concatenation.
proof fn lemma_found_comments_concat(a: Seq<TreeItemView>, b: Seq<TreeItemView>)
    ensures
        found_comments(a + b) == found_comments(a) + found_comments(b),
    decreases b.len(),
{
    if b.len() == 0 {
        assert(a + b =~= a);
        assert(found_comments(a) + found_comments(b) =~= found_comments(a));
    } else {
        lemma_found_comments_concat(a, b.drop_last());
        assert((a + b).drop_last() =~= a + b.drop_last());
        assert((a + b).last() == b.last());
        match b.last() {
            TreeItemView::Comment(c) => {
                assert(found_comments(a) + found_comments(b.drop_last()).push(c) =~= (
                found_comments(a) + found_comments(b.drop_last())).push(c));
            },
            TreeItemView::Embedded(_) => {},
        }
    }
}

/// Items that are all embedded sources hold no comment.
proof fn lemma_found_comments_none(items: Seq<TreeItemView>)
    requires
        forall|i: int| 0 <= i < items.len() ==> #[trigger] items[i] is Embedded,
    ensures
        found_comments(items) == Seq::<CommentLeafView>::empty(),
    decreases items.len(),
{
    if items.len() > 0 {
        lemma_found_comments_none(items.drop_last());
        assert(items[items.len() - 1] is Embedded);
    }
}

/// `comments_in_leaves` distributes over concatenation.
proof fn lemma_comments_in_leaves_concat(
    a: Seq<SyntaxNode>,
    b: Seq<SyntaxNode>,
    src: Seq<u8>,
    rows: usize,
    columns: usize,
)
    ensures
        comments_in_leaves(a + b, src, rows, columns) == comments_in_leaves(a, src, rows, columns)
            + comments_in_leaves(b, src, rows, columns),
    decreases b.len(),
{
    if b.len() == 0 {
        assert(a + b =~= a);
        assert(comments_in_leaves(a, src, rows, columns) + comments_in_leaves(
            b,
            src,
            rows,
            columns,
        ) =~= comments_in_leaves(a, src, rows, columns));
    } else {
        lemma_comments_in_leaves_concat(a, b.drop_last(), src, rows, columns);
        assert((a + b).drop_last() =~= a + b.drop_last());
        assert((a + b).last() == b.last());
        let x = comments_in_leaves(a, src, rows, columns);
        let y = comments_in_leaves(b.drop_last(), src, rows, columns);
        let l = b.last();
        let c = CommentLeafView {
            text: decode_utf8(src.subrange(l.start_byte as int, l.end_byte as int)),
            row: (l.start_row + rows) as usize,
            column: (l.start_column + columns) as usize,
        };
        assert(x + y.push(c) =~= (x + y).push(c));
    }
}

/// Law: the walk finds every comment of the tree, whatever the kinds of the
/// nodes above it. The comments it yields are, in source order, exactly
/// the leaves of kind `comment` or `line_comment` with a non-empty byte
/// range, at any depth, each with the text of its range and its position.
pub proof fn law_walk_finds_every_comment(
    config: LanguageConfig,
    node: SyntaxNode,
    last_kind: Seq<char>,
    src: Seq<u8>,
    rows: usize,
    columns: usize,
)
    ensures
        found_comments(walk_node(config, node, last_kind, src, rows, columns).items)
            == comments_in_leaves(tree_leaves(node), src, rows, columns),
    decreases node, 1int,
{
    if node.children.len() == 0 {
        let w = walk_node(config, node, last_kind, src, rows, columns);
        let leaves = tree_leaves(node);
        assert(leaves == seq![node]);
        assert(leaves.drop_last() =~= Seq::<SyntaxNode>::empty());
        assert(comments_in_leaves(leaves.drop_last(), src, rows, columns)
            == Seq::<CommentLeafView>::empty());
        if node.start_byte < node.end_byte {
            let text = byte_range_text(src, node.start_byte as int, node.end_byte as int);
            let comment = is_comment_kind(node.kind@);
            let c = CommentLeafView {
                text,
                row: (node.start_row + rows) as usize,
                column: (node.start_column + columns) as usize,
            };
            let comment_items = if comment {
                seq![TreeItemView::Comment(c)]
            } else {
                seq![]
            };
            let embedded_items = w.items.subrange(comment_items.len() as int, w.items.len() as int);
            assert(w.items =~= comment_items + embedded_items);
            assert forall|i: int| 0 <= i < embedded_items.len() implies #[trigger] embedded_items[i] is Embedded by {
            }
            lemma_found_comments_none(embedded_items);
            lemma_found_comments_concat(comment_items, embedded_items);
            if comment {
                assert(comment_items.drop_last() =~= Seq::<TreeItemView>::empty());
                assert(found_comments(comment_items.drop_last()) == Seq::<CommentLeafView>::empty());
                assert(comment_items.last() == TreeItemView::Comment(c));
                assert(found_comments(comment_items) =~= seq![c]);
            } else {
                assert(found_comments(comment_items) =~= Seq::<CommentLeafView>::empty());
            }
            assert(found_comments(comment_items) + Seq::<CommentLeafView>::empty() =~= found_comments(comment_items));
        } else {
            assert(w.items =~= Seq::<TreeItemView>::empty());
        }
    } else {
        lemma_siblings_find_every_comment(config, node.children@, seq![], src, rows, columns);
    }
}

/// `law_walk_finds_every_comment` for a run of siblings.
pub proof fn lemma_siblings_find_every_comment(
    config: LanguageConfig,
    nodes: Seq<SyntaxNode>,
    last_kind: Seq<char>,
    src: Seq<u8>,
    rows: usize,
    columns: usize,
)
    ensures
        found_comments(walk_siblings(config, nodes, last_kind, src, rows, columns).items)
            == comments_in_leaves(forest_leaves(nodes), src, rows, columns),
    decreases nodes, 0int,
{
    if nodes.len() > 0 {
        law_walk_finds_every_comment(config, nodes[0], last_kind, src, rows, columns);
        let first = walk_node(config, nodes[0], last_kind, src, rows, columns);
        lemma_siblings_find_every_comment(config, nodes.drop_first(), first.kind, src, rows, columns);
        let rest = walk_siblings(config, nodes.drop_first(), first.kind, src, rows, columns);
        lemma_found_comments_concat(first.items, rest.items);
        lemma_comments_in_leaves_concat(
            tree_leaves(nodes[0]),
            forest_leaves(nodes.drop_first()),
            src,
            rows,
            columns,
        );
    }
}

/// The leaves of a syntax tree in source order, each with the kind of the
/// sibling just before it: that sibling's kind when it is a leaf, empty when
/// it is an inner node or when the leaf is the first child of its parent.
/// The tree's root, when it is a leaf itself, gets `before`.
pub open spec fn leaves_after(node: SyntaxNode, before: Seq<char>) -> Seq<(SyntaxNode, Seq<char>)>
    decreases node, 1int,
{
    if node.children.len() == 0 {
        seq![(node, before)]
    } else {
        forest_leaves_after(node.children@, seq![])
    }
}

/// `leaves_after` for a run of siblings, the first of them coming after a
/// sibling of kind `before`.
pub open spec fn forest_leaves_after(nodes: Seq<SyntaxNode>, before: Seq<char>) -> Seq<
    (SyntaxNode, Seq<char>),
>
    decreases nodes, 0int,
{
    if nodes.len() == 0 {
        seq![]
    } else {
        let next = if nodes[0].children.len() == 0 {
            nodes[0].kind@
        } else {
            seq![]
        };
        leaves_after(nodes[0], before) + forest_leaves_after(nodes.drop_first(), next)
    }
}

/// The embedded sources among `leaves` (each paired with the kind of the
/// sibling before it), in order: a leaf with a non-empty byte range, of
/// kind `config.in_source_node_kind`, that comes after a sibling of kind
/// `config.in_source_node_kind_prefix`, gives the text of its range once
/// for each of `config.in_source_languages`, in their order, at the leaf's
/// own row and column.
pub open spec fn embedded_in_leaves(
    config: LanguageConfig,
    leaves: Seq<(SyntaxNode, Seq<char>)>,
    src: Seq<u8>,
) -> Seq<TreeItemView>
    decreases leaves.len(),
{
    if leaves.len() == 0 {
        seq![]
    } else {
        let rest = embedded_in_leaves(config, leaves.drop_last(), src);
        let l = leaves.last().0;
        if l.start_byte < l.end_byte && l.kind@ == config.in_source_node_kind@ && leaves.last().1
            == config.in_source_node_kind_prefix@ {
            rest + config.in_source_languages@.map_values(
                |lang: Languages|
                    TreeItemView::Embedded(
                        EmbeddedSourceView {
                            language: lang,
                            text: decode_utf8(src.subrange(l.start_byte as int, l.end_byte as int)),
                            row: l.start_row,
                            column: l.start_column,
                        },
                    ),
            )
        } else {
            rest
        }
    }
}

/// The embedded sources among walk items, in order (comments left out).
pub open spec fn found_embedded(items: Seq<TreeItemView>) -> Seq<TreeItemView>
    decreases items.len(),
{
    if items.len() == 0 {
        seq![]
    } else {
        let rest = found_embedded(items.drop_last());
        if items.last() is Embedded {
            rest.push(items.last())
        } else {
            rest
        }
    }
}

/// `found_embedded` distributes over concatenation.
proof fn lemma_found_embedded_concat(a: Seq<TreeItemView>, b: Seq<TreeItemView>)
    ensures
        found_embedded(a + b) == found_embedded(a) + found_embedded(b),
    decreases b.len(),
{
    if b.len() == 0 {
        assert(a + b =~= a);
        assert(found_embedded(a) + found_embedded(b) =~= found_embedded(a));
    } else {
        lemma_found_embedded_concat(a, b.drop_last());
        assert((a + b).drop_last() =~= a + b.drop_last());
        assert((a + b).last() == b.last());
        let x = found_embedded(a);
        let y = found_embedded(b.drop_last());
        assert(x + y.push(b.last()) =~= (x + y).push(b.last()));
    }
}

/// Items that are all embedded sources are all kept by `found_embedded`.
proof fn lemma_found_embedded_all(items: Seq<TreeItemView>)
    requires
        forall|i: int| 0 <= i < items.len() ==> #[trigger] items[i] is Embedded,
    ensures
        found_embedded(items) == items,
    decreases items.len(),
{
    if items.len() > 0 {
        lemma_found_embedded_all(items.drop_last());
        assert(items[items.len() - 1] is Embedded);
        assert(items.drop_last().push(items.last()) =~= items);
    }
}

/// `embedded_in_leaves` distributes over concatenation.
proof fn lemma_embedded_in_leaves_concat(
    config: LanguageConfig,
    a: Seq<(SyntaxNode, Seq<char>)>,
    b: Seq<(SyntaxNode, Seq<char>)>,
    src: Seq<u8>,
)
    ensures
        embedded_in_leaves(config, a + b, src) == embedded_in_leaves(config, a, src)
            + embedded_in_leaves(config, b, src),
    decreases b.len(),
{
    if b.len() == 0 {
        assert(a + b =~= a);
        assert(embedded_in_leaves(config, a, src) + embedded_in_leaves(config, b, src)
            =~= embedded_in_leaves(config, a, src));
    } else {
        lemma_embedded_in_leaves_concat(config, a, b.drop_last(), src);
        assert((a + b).drop_last() =~= a + b.drop_last());
        assert((a + b).last() == b.last());
        let x = embedded_in_leaves(config, a, src);
        let y = embedded_in_leaves(config, b.drop_last(), src);
        let l = b.last().0;
        let z = config.in_source_languages@.map_values(
            |lang: Languages|
                TreeItemView::Embedded(
                    EmbeddedSourceView {
                        language: lang,
                        text: decode_utf8(src.subrange(l.start_byte as int, l.end_byte as int)),
                        row: l.start_row,
                        column: l.start_column,
                    },
                ),
        );
        assert(x + (y + z) =~= (x + y) + z);
    }
}

/// Law: the walk yields embedded source exactly at the leaves that hold it.
/// A leaf with a non-empty byte range, of the language's
/// `in_source_node_kind`, whose previous sibling is a leaf of kind
/// `in_source_node_kind_prefix` (for the first child: the empty kind), gives
/// one embedded source per embedded language, in order, with the text of
/// the leaf's range and the leaf's own row and column; no other leaf gives
/// any.
pub proof fn law_walk_finds_embedded_source(
    config: LanguageConfig,
    node: SyntaxNode,
    last_kind: Seq<char>,
    src: Seq<u8>,
    rows: usize,
    columns: usize,
)
    ensures
        found_embedded(walk_node(config, node, last_kind, src, rows, columns).items)
            == embedded_in_leaves(config, leaves_after(node, last_kind), src),
        walk_node(config, node, last_kind, src, rows, columns).kind == if node.children.len()
            == 0 {
            node.kind@
        } else {
            Seq::<char>::empty()
        },
    decreases node, 1int,
{
    if node.children.len() == 0 {
        let w = walk_node(config, node, last_kind, src, rows, columns);
        let leaves = leaves_after(node, last_kind);
        assert(leaves.drop_last() =~= Seq::<(SyntaxNode, Seq<char>)>::empty());
        assert(embedded_in_leaves(config, leaves.drop_last(), src) == Seq::<TreeItemView>::empty());
        if node.start_byte < node.end_byte {
            let text = byte_range_text(src, node.start_byte as int, node.end_byte as int);
            let comment = is_comment_kind(node.kind@);
            let c = CommentLeafView {
                text,
                row: (node.start_row + rows) as usize,
                column: (node.start_column + columns) as usize,
            };
            let comment_items = if comment {
                seq![TreeItemView::Comment(c)]
            } else {
                seq![]
            };
            let embedded_items = w.items.subrange(comment_items.len() as int, w.items.len() as int);
            assert(w.items =~= comment_items + embedded_items);
            assert forall|i: int| 0 <= i < embedded_items.len() implies #[trigger] embedded_items[i] is Embedded by {
            }
            lemma_found_embedded_all(embedded_items);
            lemma_found_embedded_concat(comment_items, embedded_items);
            if comment {
                assert(comment_items.drop_last() =~= Seq::<TreeItemView>::empty());
                assert(found_embedded(comment_items.drop_last()) == Seq::<TreeItemView>::empty());
                assert(found_embedded(comment_items) =~= Seq::<TreeItemView>::empty());
            } else {
                assert(found_embedded(comment_items) =~= Seq::<TreeItemView>::empty());
            }
            let embeds = config.in_source_languages@.len() > 0 && node.kind@
                == config.in_source_node_kind@ && last_kind == config.in_source_node_kind_prefix@;
            let z = config.in_source_languages@.map_values(
                |lang: Languages|
                    TreeItemView::Embedded(
                        EmbeddedSourceView {
                            language: lang,
                            text: decode_utf8(
                                src.subrange(node.start_byte as int, node.end_byte as int),
                            ),
                            row: node.start_row,
                            column: node.start_column,
                        },
                    ),
            );
            if embeds {
                assert(embedded_items =~= z);
                assert(Seq::<TreeItemView>::empty() + z =~= z);
            } else {
                assert(embedded_items =~= Seq::<TreeItemView>::empty());
                if node.kind@ == config.in_source_node_kind@ && last_kind
                    == config.in_source_node_kind_prefix@ {
                    assert(z =~= Seq::<TreeItemView>::empty());
                }
            }
            assert(Seq::<TreeItemView>::empty() + embedded_items =~= embedded_items);
        } else {
            assert(w.items =~= Seq::<TreeItemView>::empty());
        }
    } else {
        lemma_siblings_find_embedded_source(config, node.children@, seq![], src, rows, columns);
    }
}

/// `law_walk_finds_embedded_source` for a run of siblings.
pub proof fn lemma_siblings_find_embedded_source(
    config: LanguageConfig,
    nodes: Seq<SyntaxNode>,
    last_kind: Seq<char>,
    src: Seq<u8>,
    rows: usize,
    columns: usize,
)
    ensures
        found_embedded(walk_siblings(config, nodes, last_kind, src, rows, columns).items)
            == embedded_in_leaves(config, forest_leaves_after(nodes, last_kind), src),
    decreases nodes, 0int,
{
    if nodes.len() > 0 {
        law_walk_finds_embedded_source(config, nodes[0], last_kind, src, rows, columns);
        let first = walk_node(config, nodes[0], last_kind, src, rows, columns);
        lemma_siblings_find_embedded_source(
            config,
            nodes.drop_first(),
            first.kind,
            src,
            rows,
            columns,
        );
        let rest = walk_siblings(config, nodes.drop_first(), first.kind, src, rows, columns);
        lemma_found_embedded_concat(first.items, rest.items);
        lemma_embedded_in_leaves_concat(
            config,
            leaves_after(nodes[0], last_kind),
            forest_leaves_after(nodes.drop_first(), first.kind),
            src,
        );
    }
}

/// Slices the byte range `[start, end)` out of `text`.
fn byte_range_slice(text: &str, start: usize, end: usize) -> (piece: &str)
    requires
        start < end,
        slices(text.spec_bytes(), start as int, end as int),
    ensures
        piece@ == byte_range_text(text.spec_bytes(), start as int, end as int),
{
    let (head, _) = text.split_at(end);
    proof {
        if start > 0 {
            is_char_boundary_iff_not_is_continuation_byte(text.spec_bytes(), start as int);
            is_char_boundary_iff_not_is_continuation_byte(head.spec_bytes(), start as int);
        }
    }
    let (_, piece) = head.split_at(start);
    proof {
        assert(piece.spec_bytes() =~= text.spec_bytes().subrange(start as int, end as int));
    }
    piece
}

/// Walks `node`, appending to `vector` the comments it holds and the
/// embedded source it holds, in source order, and returns the kind to pass
/// on to the next sibling (see `walk_node`). Comment positions are shifted
/// by (`start_row_position`, `start_column_position`).
pub fn collect_tree_items(
    language_config: &LanguageConfig,
    vector: &mut Vec<TreeItem>,
    node: &SyntaxNode,
    last_kind: &str,
    text: &str,
    start_row_position: usize,
    start_column_position: usize,
) -> (kind: String)
    requires
        walk_node(
            *language_config,
            *node,
            last_kind@,
            text.spec_bytes(),
            start_row_position,
            start_column_position,
        ).ok,
    ensures
        items_view(final(vector)@) == items_view(old(vector)@) + walk_node(
            *language_config,
            *node,
            last_kind@,
            text.spec_bytes(),
            start_row_position,
            start_column_position,
        ).items,
        kind@ == walk_node(
            *language_config,
            *node,
            last_kind@,
            text.spec_bytes(),
            start_row_position,
            start_column_position,
        ).kind,
        found_comments(items_view(final(vector)@)) == found_comments(items_view(old(vector)@))
            + comments_in_leaves(
            tree_leaves(*node),
            text.spec_bytes(),
            start_row_position,
            start_column_position,
        ),
        found_embedded(items_view(final(vector)@)) == found_embedded(items_view(old(vector)@))
            + embedded_in_leaves(*language_config, leaves_after(*node, last_kind@), text.spec_bytes()),
    decreases node,
{
    let ghost src = text.spec_bytes();
    let ghost before = items_view(vector@);
    proof {
        law_walk_finds_embedded_source(
            *language_config,
            *node,
            last_kind@,
            src,
            start_row_position,
            start_column_position,
        );
        lemma_found_embedded_concat(
            before,
            walk_node(
                *language_config,
                *node,
                last_kind@,
                src,
                start_row_position,
                start_column_position,
            ).items,
        );
        law_walk_finds_every_comment(
            *language_config,
            *node,
            last_kind@,
            src,
            start_row_position,
            start_column_position,
        );
        lemma_found_comments_concat(
            before,
            walk_node(
                *language_config,
                *node,
                last_kind@,
                src,
                start_row_position,
                start_column_position,
            ).items,
        );
    }
    if node.children.len() == 0 {
        if node.start_byte >= node.end_byte {
            assert(items_view(vector@) =~= before + seq![]);
            return node.kind.clone();
        }
        let kind = node.kind.as_str();
        if str_eq(kind, "comment") || str_eq(kind, "line_comment") {
            let piece = byte_range_slice(text, node.start_byte, node.end_byte);
            let leaf = CommentLeaf {
                text: piece.to_owned(),
                row: node.start_row + start_row_position,
                column: node.start_column + start_column_position,
            };
            vector.push(TreeItem::Comment(leaf));
        }
        let ghost mid = items_view(vector@);
        let ghost mid_len = vector@.len();
        if language_config.in_source_languages.len() > 0 && str_eq(
            kind,
            language_config.in_source_node_kind,
        ) && str_eq(last_kind, language_config.in_source_node_kind_prefix) {
            let piece = byte_range_slice(text, node.start_byte, node.end_byte);
            let langs = &language_config.in_source_languages;
            let mut j: usize = 0;
            while j < langs.len()
                invariant
                    j <= langs@.len(),
                    vector@.len() == mid_len + j,
                    mid.len() == mid_len,
                    forall|k: int| 0 <= k < mid_len ==> items_view(vector@)[k] == mid[k],
                    forall|k: int|
                        0 <= k < j ==> items_view(vector@)[mid_len + k] == embedded_item(
                            langs@[k],
                            piece@,
                            node.start_row,
                            node.start_column,
                        ),
                decreases langs@.len() - j,
            {
                let item = EmbeddedSource {
                    language: langs[j],
                    text: piece.to_owned(),
                    row: node.start_row,
                    column: node.start_column,
                };
                vector.push(TreeItem::Embedded(item));
                j = j + 1;
            }
            assert(items_view(vector@) =~= mid + langs@.map_values(
                |l: Languages| embedded_item(l, piece@, node.start_row, node.start_column),
            ));
        }
        assert(items_view(vector@) =~= before + walk_node(
            *language_config,
            *node,
            last_kind@,
            src,
            start_row_position,
            start_column_position,
        ).items);
        return node.kind.clone();
    }
    let n = node.children.len();
    let ghost children = node.children@;
    let mut last = String::new();
    let mut i: usize = 0;
    proof {
        assert(children.skip(0) =~= children);
    }
    while i < n
        invariant
            n == children.len(),
            children == node.children@,
            i <= n,
            walk_siblings(
                *language_config,
                children.skip(i as int),
                last@,
                src,
                start_row_position,
                start_column_position,
            ).ok,
            before + walk_siblings(
                *language_config,
                children,
                seq![],
                src,
                start_row_position,
                start_column_position,
            ).items == items_view(vector@) + walk_siblings(
                *language_config,
                children.skip(i as int),
                last@,
                src,
                start_row_position,
                start_column_position,
            ).items,
            src == text.spec_bytes(),
        decreases n - i,
    {
        proof {
            assert(children.skip(i as int)[0] == children[i as int]);
            assert(children.skip(i as int).drop_first() =~= children.skip(i + 1));
        }
        last = collect_tree_items(
            language_config,
            vector,
            &node.children[i],
            last.as_str(),
            text,
            start_row_position,
            start_column_position,
        );
        i = i + 1;
    }
    proof {
        assert(children.skip(n as int) =~= Seq::<SyntaxNode>::empty());
        assert(items_view(vector@) =~= items_view(vector@) + Seq::<TreeItemView>::empty());
    }
    String::new()
}

/// Tells whether `collect_tree_items` and `parse_tree` may walk `node`
/// (their `requires`), and the
/// kind that the walk passes on.
pub fn walk_allowed(
    language_config: &LanguageConfig,
    node: &SyntaxNode,
    last_kind: &str,
    text: &str,
    start_row_position: usize,
    start_column_position: usize,
) -> (r: (bool, String))
    ensures
        r.0 == walk_node(
            *language_config,
            *node,
            last_kind@,
            text.spec_bytes(),
            start_row_position,
            start_column_position,
        ).ok,
        r.1@ == walk_node(
            *language_config,
            *node,
            last_kind@,
            text.spec_bytes(),
            start_row_position,
            start_column_position,
        ).kind,
    decreases node,
{
    let ghost src = text.spec_bytes();
    if node.children.len() == 0 {
        if node.start_byte >= node.end_byte {
            return (true, node.kind.clone());
        }
        let sliced = text.is_char_boundary(node.start_byte) && text.is_char_boundary(
            node.end_byte,
        );
        let kind = node.kind.as_str();
        let mut ok = true;
        if str_eq(kind, "comment") || str_eq(kind, "line_comment") {
            ok = sliced && node.start_row <= usize::MAX - start_row_position
                && node.start_column <= usize::MAX - start_column_position;
        }
        if language_config.in_source_languages.len() > 0 && str_eq(
            kind,
            language_config.in_source_node_kind,
        ) && str_eq(last_kind, language_config.in_source_node_kind_prefix) {
            ok = ok && sliced;
        }
        return (ok, node.kind.clone());
    }
    let n = node.children.len();
    let ghost children = node.children@;
    let mut last = String::new();
    let mut ok = true;
    let mut i: usize = 0;
    proof {
        assert(children.skip(0) =~= children);
    }
    while i < n
        invariant
            n == children.len(),
            children == node.children@,
            i <= n,
            src == text.spec_bytes(),
            walk_siblings(
                *language_config,
                children,
                seq![],
                src,
                start_row_position,
                start_column_position,
            ).ok == (ok && walk_siblings(
                *language_config,
                children.skip(i as int),
                last@,
                src,
                start_row_position,
                start_column_position,
            ).ok),
            walk_siblings(
                *language_config,
                children,
                seq![],
                src,
                start_row_position,
                start_column_position,
            ).kind == walk_siblings(
                *language_config,
                children.skip(i as int),
                last@,
                src,
                start_row_position,
                start_column_position,
            ).kind,
        decreases n - i,
    {
        proof {
            assert(children.skip(i as int)[0] == children[i as int]);
            assert(children.skip(i as int).drop_first() =~= children.skip(i + 1));
        }
        let (child_ok, kind) = walk_allowed(
            language_config,
            &node.children[i],
            last.as_str(),
            text,
            start_row_position,
            start_column_position,
        );
        ok = ok && child_ok;
        last = kind;
        i = i + 1;
    }
    proof {
        assert(children.skip(n as int) =~= Seq::<SyntaxNode>::empty());
    }
    (ok, String::new())
}

/// The number of embedded sources among `items`.
pub open spec fn count_embedded(items: Seq<TreeItemView>) -> nat
    decreases items.len(),
{
    if items.len() == 0 {
        0
    } else {
        count_embedded(items.drop_last()) + if items.last() is Embedded {
            1nat
        } else {
            0nat
        }
    }
}

/// The comments of `items` in order, the comments of the `i`-th embedded
/// source being `expansions[i]`.
pub open spec fn spliced(
    items: Seq<TreeItemView>,
    expansions: Seq<Seq<CommentLeafView>>,
) -> Seq<CommentLeafView>
    decreases items.len(),
{
    if items.len() == 0 {
        seq![]
    } else {
        match items.last() {
            TreeItemView::Comment(c) => spliced(items.drop_last(), expansions).push(c),
            TreeItemView::Embedded(_) => spliced(items.drop_last(), expansions.drop_last())
                + expansions.last(),
        }
    }
}

/// The values of a sequence of comments.
pub open spec fn leaves_view(leaves: Seq<CommentLeaf>) -> Seq<CommentLeafView> {
    leaves.map_values(|c: CommentLeaf| c@)
}

/// The values of the comment lists of embedded sources.
pub open spec fn expansions_view(expansions: Seq<Vec<CommentLeaf>>) -> Seq<Seq<CommentLeafView>> {
    expansions.map_values(|v: Vec<CommentLeaf>| leaves_view(v@))
}

/// `count_embedded` adds up over concatenation.
pub proof fn lemma_count_embedded_concat(a: Seq<TreeItemView>, b: Seq<TreeItemView>)
    ensures
        count_embedded(a + b) == count_embedded(a) + count_embedded(b),
    decreases b.len(),
{
    if b.len() == 0 {
        assert(a + b =~= a);
    } else {
        lemma_count_embedded_concat(a, b.drop_last());
        assert((a + b).drop_last() =~= a + b.drop_last());
    }
}

/// Law: a language that embeds no other language yields no embedded
/// source, only comments.
pub proof fn law_no_embedding_without_in_source_languages(
    config: LanguageConfig,
    node: SyntaxNode,
    last_kind: Seq<char>,
    src: Seq<u8>,
    rows: usize,
    columns: usize,
)
    requires
        config.in_source_languages@.len() == 0,
    ensures
        count_embedded(walk_node(config, node, last_kind, src, rows, columns).items) == 0,
    decreases node, 1int,
{
    if node.children.len() == 0 {
        let w = walk_node(config, node, last_kind, src, rows, columns);
        if node.start_byte < node.end_byte && is_comment_kind(node.kind@) {
            let text = byte_range_text(src, node.start_byte as int, node.end_byte as int);
            let c = TreeItemView::Comment(
                CommentLeafView {
                    text,
                    row: (node.start_row + rows) as usize,
                    column: (node.start_column + columns) as usize,
                },
            );
            assert(w.items =~= seq![c]);
            assert(w.items.drop_last() =~= Seq::<TreeItemView>::empty());
            assert(count_embedded(Seq::<TreeItemView>::empty()) == 0);
            assert(!(w.items.last() is Embedded));
        } else {
            assert(w.items =~= Seq::<TreeItemView>::empty());
        }
    } else {
        lemma_siblings_embed_nothing(config, node.children@, seq![], src, rows, columns);
    }
}

/// `law_no_embedding_without_in_source_languages` for a run of siblings.
pub proof fn lemma_siblings_embed_nothing(
    config: LanguageConfig,
    nodes: Seq<SyntaxNode>,
    last_kind: Seq<char>,
    src: Seq<u8>,
    rows: usize,
    columns: usize,
)
    requires
        config.in_source_languages@.len() == 0,
    ensures
        count_embedded(walk_siblings(config, nodes, last_kind, src, rows, columns).items) == 0,
    decreases nodes, 0int,
{
    if nodes.len() > 0 {
        law_no_embedding_without_in_source_languages(
            config,
            nodes[0],
            last_kind,
            src,
            rows,
            columns,
        );
        let first = walk_node(config, nodes[0], last_kind, src, rows, columns);
        lemma_siblings_embed_nothing(config, nodes.drop_first(), first.kind, src, rows, columns);
        let rest = walk_siblings(config, nodes.drop_first(), first.kind, src, rows, columns);
        lemma_count_embedded_concat(first.items, rest.items);
    }
}

/// Copies a comment.
fn copy_leaf(c: &CommentLeaf) -> (r: CommentLeaf)
    ensures
        r@ == c@,
{
    CommentLeaf { text: c.text.clone(), row: c.row, column: c.column }
}

/// Replaces each embedded source among `items` by its comments, taken in
/// order from `expansions`, keeping the order of the walk.
pub fn splice_embedded(items: &Vec<TreeItem>, expansions: &Vec<Vec<CommentLeaf>>) -> (leaves: Vec<
    CommentLeaf,
>)
    requires
        count_embedded(items_view(items@)) == expansions@.len(),
    ensures
        leaves_view(leaves@) == spliced(items_view(items@), expansions_view(expansions@)),
{
    let ghost iv = items_view(items@);
    let ghost ev = expansions_view(expansions@);
    let mut leaves: Vec<CommentLeaf> = Vec::new();
    let mut e: usize = 0;
    let mut i: usize = 0;
    while i < items.len()
        invariant
            iv == items_view(items@),
            ev == expansions_view(expansions@),
            count_embedded(iv) == expansions@.len(),
            i <= items@.len(),
            e == count_embedded(iv.take(i as int)),
            leaves_view(leaves@) == spliced(iv.take(i as int), ev.take(e as int)),
        decreases items@.len() - i,
    {
        proof {
            assert(iv.take(i + 1).drop_last() =~= iv.take(i as int));
            lemma_count_embedded_prefix(iv, i + 1);
        }
        match &items[i] {
            TreeItem::Comment(c) => {
                assert(iv[i as int] == TreeItemView::Comment(c@));
                let ghost prev = leaves_view(leaves@);
                leaves.push(copy_leaf(c));
                assert(leaves_view(leaves@) =~= prev.push(c@));
                proof {
                    assert(leaves_view(leaves@) =~= spliced(iv.take(i as int), ev.take(e as int)).push(c@));
                }
            },
            TreeItem::Embedded(_) => {
                assert(iv[i as int] is Embedded);
                assert(e + 1 <= expansions@.len());
                let ghost before = leaves_view(leaves@);
                let exp = &expansions[e];
                let mut k: usize = 0;
                while k < exp.len()
                    invariant
                        k <= exp@.len(),
                        e < expansions.len(),
                        leaves_view(leaves@) == before + leaves_view(exp@).take(k as int),
                    decreases exp@.len() - k,
                {
                    let ghost prev = leaves_view(leaves@);
                    leaves.push(copy_leaf(&exp[k]));
                    proof {
                        assert(leaves_view(leaves@) =~= prev.push(exp@[k as int]@));
                        assert(leaves_view(exp@).take(k + 1) =~= leaves_view(exp@).take(k as int).push(exp@[k as int]@));
                        assert(leaves_view(leaves@) =~= before + leaves_view(exp@).take(k + 1));
                    }
                    k = k + 1;
                }
                proof {
                    assert(leaves_view(exp@).take(k as int) =~= leaves_view(exp@));
                    assert(ev.take(e + 1).drop_last() =~= ev.take(e as int));
                    assert(ev.take(e + 1).last() == leaves_view(exp@));
                }
                e = e + 1;
            },
        }
        i = i + 1;
    }
    proof {
        assert(iv.take(i as int) =~= iv);
        assert(ev.take(e as int) =~= ev);
    }
    leaves
}

/// Walks `node` and appends to `vector` the comments it holds, in source
/// order, the comments of embedded source included: the comments of the
/// `i`-th embedded source that the walk meets are `embedded_comments[i]`
/// (see `collect_tree_items` for the walk, `spliced` for the placing).
/// Returns the kind to pass on to the next sibling. Comment positions are
/// shifted by (`start_row_position`, `start_column_position`).
pub fn parse_tree(
    language_config: &LanguageConfig,
    vector: &mut Vec<CommentLeaf>,
    node: &SyntaxNode,
    last_kind: &str,
    text: &str,
    start_row_position: usize,
    start_column_position: usize,
    embedded_comments: &Vec<Vec<CommentLeaf>>,
) -> (kind: String)
    requires
        walk_node(
            *language_config,
            *node,
            last_kind@,
            text.spec_bytes(),
            start_row_position,
            start_column_position,
        ).ok,
        count_embedded(
            walk_node(
                *language_config,
                *node,
                last_kind@,
                text.spec_bytes(),
                start_row_position,
                start_column_position,
            ).items,
        ) == embedded_comments@.len(),
    ensures
        leaves_view(final(vector)@) == leaves_view(old(vector)@) + spliced(
            walk_node(
                *language_config,
                *node,
                last_kind@,
                text.spec_bytes(),
                start_row_position,
                start_column_position,
            ).items,
            expansions_view(embedded_comments@),
        ),
        kind@ == walk_node(
            *language_config,
            *node,
            last_kind@,
            text.spec_bytes(),
            start_row_position,
            start_column_position,
        ).kind,
{
    let mut items: Vec<TreeItem> = Vec::new();
    proof {
        assert(items_view(items@) =~= Seq::<TreeItemView>::empty());
    }
    let kind = collect_tree_items(
        language_config,
        &mut items,
        node,
        last_kind,
        text,
        start_row_position,
        start_column_position,
    );
    assert(items_view(items@) =~= walk_node(
        *language_config,
        *node,
        last_kind@,
        text.spec_bytes(),
        start_row_position,
        start_column_position,
    ).items);
    let leaves = splice_embedded(&items, embedded_comments);
    let ghost before = leaves_view(vector@);
    let mut i: usize = 0;
    while i < leaves.len()
        invariant
            i <= leaves@.len(),
            leaves_view(vector@) == before + leaves_view(leaves@).take(i as int),
        decreases leaves@.len() - i,
    {
        let ghost prev = leaves_view(vector@);
        vector.push(copy_leaf(&leaves[i]));
        proof {
            assert(leaves_view(vector@) =~= prev.push(leaves@[i as int]@));
            assert(leaves_view(leaves@).take(i + 1) =~= leaves_view(leaves@).take(i as int).push(
                leaves@[i as int]@,
            ));
        }
        i = i + 1;
    }
    proof {
        assert(leaves_view(leaves@).take(i as int) =~= leaves_view(leaves@));
    }
    kind
}

/// The number of embedded sources among `items`.
pub fn embedded_count(items: &Vec<TreeItem>) -> (n: usize)
    ensures
        n == count_embedded(items_view(items@)),
{
    let ghost iv = items_view(items@);
    let mut n: usize = 0;
    let mut i: usize = 0;
    while i < items.len()
        invariant
            iv == items_view(items@),
            i <= items@.len(),
            n == count_embedded(iv.take(i as int)),
            n <= i,
        decreases items@.len() - i,
    {
        proof {
            lemma_count_embedded_prefix(iv, i + 1);
        }
        if let TreeItem::Embedded(_) = &items[i] {
            n = n + 1;
        }
        i = i + 1;
    }
    proof {
        assert(iv.take(i as int) =~= iv);
    }
    n
}

/// `count_embedded` of a prefix grows by one exactly at embedded items.
proof fn lemma_count_embedded_prefix(items: Seq<TreeItemView>, j: int)
    requires
        0 < j <= items.len(),
    ensures
        count_embedded(items.take(j)) == count_embedded(items.take(j - 1)) + if items[j
            - 1] is Embedded {
            1nat
        } else {
            0nat
        },
        count_embedded(items.take(j)) <= count_embedded(items),
    decreases items.len() - j,
{
    assert(items.take(j).drop_last() =~= items.take(j - 1));
    if j < items.len() {
        lemma_count_embedded_prefix(items, j + 1);
    } else {
        assert(items.take(j) =~= items);
    }
}

/// A comment of a source file, ready to be checked: its text, the
/// checksum of its text (to dedupe and cache checks), and where it starts.
#[derive(Clone, Debug)]
pub struct CodeComment {
    pub text: String,
    pub text_checksum: u64,
    pub start_row: usize,
    pub start_column: usize,
}

/// The mathematical value of a `CodeComment`.
pub struct CodeCommentView {
    pub text: Seq<char>,
    pub text_checksum: u64,
    pub start_row: usize,
    pub start_column: usize,
}

impl View for CodeComment {
    type V = CodeCommentView;

    open spec fn view(&self) -> CodeCommentView {
        CodeCommentView {
            text: self.text@,
            text_checksum: self.text_checksum,
            start_row: self.start_row,
            start_column: self.start_column,
        }
    }
}

/// Names the value of `xxhash_rust::xxh3::xxh3_64` on a byte sequence.
pub uninterp spec fn spec_xxh3_64(data: Seq<u8>) -> u64;

/// Calls `xxhash_rust::xxh3::xxh3_64`, the XXH3 64-bit hash with the default
/// secret and seed 0. The contract ties the hash to the bytes through
/// `spec_xxh3_64` and says nothing of its value.
#[verifier::external_body]
pub(crate) fn xxh3_64(data: &[u8]) -> (h: u64)
    ensures
        h == spec_xxh3_64(data@),
{
    xxhash_rust::xxh3::xxh3_64(data)
}

/// The checksum of a comment text: the XXH3 hash of its UTF-8 bytes.
pub open spec fn text_checksum(text: Seq<char>) -> u64 {
    spec_xxh3_64(encode_utf8(text))
}

/// Whether a comment is left out: in shell scripts, the shebang line.
pub open spec fn is_skipped(is_shell_script: bool, leaf: CommentLeafView) -> bool {
    is_shell_script && has_prefix(leaf.text, "#!"@)
}

/// The code comment made from a comment found in the tree.
pub open spec fn code_comment_of(leaf: CommentLeafView) -> CodeCommentView {
    CodeCommentView {
        text: leaf.text,
        text_checksum: text_checksum(leaf.text),
        start_row: leaf.row,
        start_column: leaf.column,
    }
}

/// The code comments made from the comments of a file, in order.
pub open spec fn spec_code_comments(
    is_shell_script: bool,
    leaves: Seq<CommentLeafView>,
) -> Seq<CodeCommentView>
    decreases leaves.len(),
{
    if leaves.len() == 0 {
        seq![]
    } else {
        let rest = spec_code_comments(is_shell_script, leaves.drop_last());
        if is_skipped(is_shell_script, leaves.last()) {
            rest
        } else {
            rest.push(code_comment_of(leaves.last()))
        }
    }
}

/// The values of a sequence of code comments.
pub open spec fn code_comments_view(comments: Seq<CodeComment>) -> Seq<CodeCommentView> {
    comments.map_values(|c: CodeComment| c@)
}

/// Whether the path names a shell script (ends in `.sh`).
pub open spec fn is_shell_script(filepath: Seq<char>) -> bool {
    has_suffix(filepath, ".sh"@)
}

/// Law: a path names a shell script exactly when its last three characters
/// are `.sh`.
pub proof fn law_shell_script_is_dot_sh(filepath: Seq<char>)
    ensures
        is_shell_script(filepath) <==> (filepath.len() >= 3 && filepath[filepath.len() - 3]
            == '.' && filepath[filepath.len() - 2] == 's' && filepath[filepath.len() - 1] == 'h'),
{
    reveal_strlit(".sh");
    assert(".sh"@ =~= seq!['.', 's', 'h']);
    if filepath.len() >= 3 {
        let n = filepath.len() as int;
        let tail = filepath.subrange(n - 3, n);
        assert(tail =~= seq![filepath[n - 3], filepath[n - 2], filepath[n - 1]]);
        assert(tail[0] == filepath[n - 3] && tail[1] == filepath[n - 2] && tail[2] == filepath[n
            - 1]);
        if tail == seq!['.', 's', 'h'] {
            assert(seq!['.', 's', 'h'][0] == '.' && seq!['.', 's', 'h'][1] == 's' && seq![
                '.',
                's',
                'h',
            ][2] == 'h');
        }
    }
}

/// Each code comment carries the checksum of its own text, and comes from
/// one of the comments it was made from.
pub proof fn lemma_code_comments_checksummed(is_shell_script: bool, leaves: Seq<CommentLeafView>)
    ensures
        forall|i: int|
            0 <= i < spec_code_comments(is_shell_script, leaves).len() ==> {
                let c = #[trigger] spec_code_comments(is_shell_script, leaves)[i];
                &&& c.text_checksum == text_checksum(c.text)
                &&& exists|j: int| #![trigger leaves[j]] 0 <= j < leaves.len() && c == code_comment_of(leaves[j])
            },
        spec_code_comments(is_shell_script, leaves).len() <= leaves.len(),
    decreases leaves.len(),
{
    if leaves.len() > 0 {
        let prefix = leaves.drop_last();
        lemma_code_comments_checksummed(is_shell_script, prefix);
        let out = spec_code_comments(is_shell_script, leaves);
        assert forall|i: int| #![trigger out[i]] 0 <= i < out.len() implies exists|j: int|
            #![trigger leaves[j]] 0 <= j < leaves.len() && out[i] == code_comment_of(leaves[j]) by {
            if i < spec_code_comments(is_shell_script, prefix).len() {
                let j = choose|j: int|
                    #![trigger prefix[j]]
                    0 <= j < prefix.len() && spec_code_comments(is_shell_script, prefix)[i]
                        == code_comment_of(prefix[j]);
                assert(leaves[j] == prefix[j]);
            } else {
                assert(out[i] == code_comment_of(leaves[leaves.len() - 1]));
            }
        }
    }
}

/// Law: comments with the same text get the same checksum, so deduping by
/// checksum never sends one text twice.
pub proof fn law_equal_texts_share_checksum(
    is_shell_script: bool,
    leaves: Seq<CommentLeafView>,
    i: int,
    j: int,
)
    requires
        0 <= i < spec_code_comments(is_shell_script, leaves).len(),
        0 <= j < spec_code_comments(is_shell_script, leaves).len(),
        spec_code_comments(is_shell_script, leaves)[i].text == spec_code_comments(
            is_shell_script,
            leaves,
        )[j].text,
    ensures
        spec_code_comments(is_shell_script, leaves)[i].text_checksum == spec_code_comments(
            is_shell_script,
            leaves,
        )[j].text_checksum,
{
    lemma_code_comments_checksummed(is_shell_script, leaves);
    let out = spec_code_comments(is_shell_script, leaves);
    assert(out[i].text_checksum == text_checksum(out[i].text));
    assert(out[j].text_checksum == text_checksum(out[j].text));
}

/// Law: only shell scripts lose comments. Outside shell scripts every
/// comment found becomes a code comment, in order, at the same place.
pub proof fn law_only_shell_scripts_drop_comments(leaves: Seq<CommentLeafView>)
    ensures
        spec_code_comments(false, leaves) == leaves.map_values(
            |l: CommentLeafView| code_comment_of(l),
        ),
    decreases leaves.len(),
{
    if leaves.len() > 0 {
        law_only_shell_scripts_drop_comments(leaves.drop_last());
        assert(leaves.map_values(|l: CommentLeafView| code_comment_of(l)) =~= leaves.drop_last().map_values(
            |l: CommentLeafView| code_comment_of(l),
        ).push(code_comment_of(leaves.last())));
    } else {
        assert(leaves.map_values(|l: CommentLeafView| code_comment_of(l)) =~= seq![]);
    }
}

/// Law: a comment is dropped exactly when the file is a shell script and the
/// comment's text starts with `#!`. Every other comment becomes a code
/// comment, in order, with its own text, the XXH3 hash of that text's UTF-8
/// bytes as checksum, and its own row and column.
pub proof fn law_only_shebangs_dropped(is_shell_script: bool, leaves: Seq<CommentLeafView>)
    ensures
        spec_code_comments(is_shell_script, leaves) == leaves.filter(
            |l: CommentLeafView|
                !(is_shell_script && l.text.len() >= 2 && l.text[0] == '#' && l.text[1] == '!'),
        ).map_values(
            |l: CommentLeafView|
                (CodeCommentView {
                    text: l.text,
                    text_checksum: spec_xxh3_64(encode_utf8(l.text)),
                    start_row: l.row,
                    start_column: l.column,
                }),
        ),
    decreases leaves.len(),
{
    reveal(Seq::filter);
    let kept = leaves.filter(
        |l: CommentLeafView|
            !(is_shell_script && l.text.len() >= 2 && l.text[0] == '#' && l.text[1] == '!'),
    );
    let made = |l: CommentLeafView|
        (CodeCommentView {
            text: l.text,
            text_checksum: spec_xxh3_64(encode_utf8(l.text)),
            start_row: l.row,
            start_column: l.column,
        });
    if leaves.len() == 0 {
        assert(kept.map_values(made) =~= Seq::<CodeCommentView>::empty());
    } else {
        let prefix = leaves.drop_last();
        law_only_shebangs_dropped(is_shell_script, prefix);
        let kept_prefix = prefix.filter(
            |l: CommentLeafView|
                !(is_shell_script && l.text.len() >= 2 && l.text[0] == '#' && l.text[1] == '!'),
        );
        let last = leaves.last();
        assert(has_prefix(last.text, "#!"@) <==> (last.text.len() >= 2 && last.text[0] == '#'
            && last.text[1] == '!')) by {
            reveal_strlit("#!");
            assert("#!"@ =~= seq!['#', '!']);
            if last.text.len() >= 2 {
                let head = last.text.subrange(0, 2);
                assert(head =~= seq![last.text[0], last.text[1]]);
                assert(head[0] == last.text[0] && head[1] == last.text[1]);
                if head == seq!['#', '!'] {
                    assert(seq!['#', '!'][0] == '#' && seq!['#', '!'][1] == '!');
                }
            }
        }
        if is_skipped(is_shell_script, last) {
            assert(kept == kept_prefix);
        } else {
            assert(kept == kept_prefix.push(last));
            assert(kept.map_values(made) =~= kept_prefix.map_values(made).push(made(last)));
        }
    }
}

/// Turns the comments found in the file at `filepath` into code comments:
/// drops the shebang line of shell scripts and checksums each text.
pub fn build_code_comments(filepath: &str, leaves: &Vec<CommentLeaf>) -> (comments: Vec<
    CodeComment,
>)
    ensures
        code_comments_view(comments@) == spec_code_comments(
            is_shell_script(filepath@),
            leaves_view(leaves@),
        ),
{
    let shell = str_ends_with(filepath, ".sh");
    let ghost lv = leaves_view(leaves@);
    let mut comments: Vec<CodeComment> = Vec::new();
    let mut i: usize = 0;
    while i < leaves.len()
        invariant
            lv == leaves_view(leaves@),
            shell == is_shell_script(filepath@),
            i <= leaves@.len(),
            code_comments_view(comments@) == spec_code_comments(shell, lv.take(i as int)),
        decreases leaves@.len() - i,
    {
        let leaf = &leaves[i];
        proof {
            assert(lv.take(i + 1).drop_last() =~= lv.take(i as int));
            assert(lv.take(i + 1).last() == leaf@);
        }
        if !(shell && str_starts_with(leaf.text.as_str(), "#!")) {
            let text = leaf.text.clone();
            let checksum = xxh3_64(text.as_str().as_bytes());
            let ghost prev = code_comments_view(comments@);
            comments.push(
                CodeComment {
                    text,
                    text_checksum: checksum,
                    start_row: leaf.row,
                    start_column: leaf.column,
                },
            );
            proof {
                assert(code_comments_view(comments@) =~= prev.push(code_comment_of(leaf@)));
            }
        }
        i = i + 1;
    }
    proof {
        assert(lv.take(i as int) =~= lv);
    }
    comments
}

} // verus!
