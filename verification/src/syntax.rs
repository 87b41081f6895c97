//! Syntax trees: what tree-sitter's parser makes of a source file, as plain values.

use tree_sitter::{LanguageError, Parser, Tree, TreeCursor};
use vstd::prelude::*;
use vstd::utf8;

use crate::text;

verus! {

/// The grammars that source files are parsed with.
#[derive(Debug, Clone, Copy, PartialEq, Eq, Structural)]
pub enum Grammar {
    JavaScript,
    Tsx,
    TypeScript,
}

/// A range of bytes of the source: the first byte, and the byte after the last.
pub type Span = (usize, usize);

/// A node of a syntax tree. A tree is the list of its nodes in preorder: the children of a node
/// are those nodes after it, before the next node that is not deeper, that are one level deeper.
#[verifier::ext_equal]
pub struct TreeNode {
    pub kind: Seq<char>,
    /// The number of ancestors of the node.
    pub depth: nat,
    pub span: Span,
    /// The row in which the node starts, and the row in which it ends.
    pub rows: (usize, usize),
    /// For each field of the node, the span of the first child in that field.
    pub fields: Map<Seq<char>, Span>,
}

/// A node of a syntax tree, read for two of its fields.
#[derive(Debug)]
pub struct NodeRecord {
    pub kind: String,
    pub depth: usize,
    pub span: Span,
    pub rows: (usize, usize),
    pub name: Option<Span>,
    pub function: Option<Span>,
}

impl NodeRecord {
    /// Whether this is the node as read for the given fields.
    pub open spec fn is_of(
        self,
        node: TreeNode,
        name_field: Seq<char>,
        function_field: Seq<char>,
    ) -> bool {
        &&& self.kind@ == node.kind
        &&& self.depth == node.depth
        &&& self.span == node.span
        &&& self.rows == node.rows
        &&& self.name == field_span(node, name_field)
        &&& self.function == field_span(node, function_field)
    }
}

/// The span of the first child in a field, if there is one.
pub open spec fn field_span(node: TreeNode, field: Seq<char>) -> Option<Span> {
    if node.fields.contains_key(field) {
        Some(node.fields[field])
    } else {
        None
    }
}

/// tree-sitter's `Tree`.
#[verifier::external_type_specification]
#[verifier::external_body]
pub struct ExTree(Tree);

/// tree-sitter's `TreeCursor`.
#[verifier::external_type_specification]
#[verifier::external_body]
pub struct ExTreeCursor<'cursor>(TreeCursor<'cursor>);

/// tree-sitter's `LanguageError`.
#[verifier::external_type_specification]
#[verifier::external_body]
pub struct ExLanguageError(LanguageError);

/// The nodes of a tree-sitter tree, in preorder.
pub uninterp spec fn tree_nodes(tree: Tree) -> Seq<TreeNode>;

/// The nodes that a tree-sitter cursor walks, in preorder: the node at which it was made, and what
/// is below it.
pub uninterp spec fn cursor_nodes(cursor: TreeCursor<'_>) -> Seq<TreeNode>;

/// Whether tree-sitter's parser may make a tree with these nodes, in preorder, of a source text.
/// There can be more than one such tree: the scanners of the grammars ask the C library which
/// characters are white space, letters and digits, and that depends on the locale.
pub uninterp spec fn parses_to(grammar: Grammar, source: Seq<char>, nodes: Seq<TreeNode>) -> bool;

/// Whether nodes lie in a source as those of a syntax tree in preorder do: each lies within the
/// source, its rows are the numbers of line feeds before its start and before its end, and none
/// starts before one that comes earlier.
pub open spec fn placed_in(nodes: Seq<TreeNode>, source: Seq<char>) -> bool {
    let bytes = utf8::encode_utf8(source);
    &&& forall|i: int|
        0 <= i < nodes.len() ==> {
            let node = #[trigger] nodes[i];
            &&& node.span.0 <= node.span.1 <= bytes.len()
            &&& node.rows.0 == text::line_feeds(bytes.take(node.span.0 as int))
            &&& node.rows.1 == text::line_feeds(bytes.take(node.span.1 as int))
        }
    &&& forall|i: int, j: int|
        0 <= i <= j < nodes.len() ==> (#[trigger] nodes[i]).span.0 <= (#[trigger] nodes[j]).span.0
}

/// `Parser::set_language` on a new parser, then `Parser::parse` without an earlier tree. The
/// grammars were generated for versions of the interface that `set_language` accepts, and with a
/// language set, no progress callback and no earlier tree `parse` always makes a tree. The
/// parser splits the source into tokens and what stands between them, and counts bytes and line
/// feeds as it goes: so come about the spans and the rows of the nodes. Which of the trees is
/// made that `parses_to` admits is left open. Positions in a tree are 32-bit numbers, so the
/// source is shorter than that many bytes.
#[verifier::external_body]
pub(crate) fn parse_source(grammar: Grammar, source: &str) -> (parsed: Result<
    Option<Tree>,
    LanguageError,
>)
    requires
        utf8::encode_utf8(source@).len() < u32::MAX,
    ensures
        parsed matches Ok(Some(_)),
        parsed matches Ok(Some(tree)) ==> parses_to(grammar, source@, tree_nodes(tree)),
        parsed matches Ok(Some(tree)) ==> placed_in(tree_nodes(tree), source@),
{
    let language = match grammar {
        Grammar::JavaScript => tree_sitter_javascript::LANGUAGE.into(),
        Grammar::Tsx => tree_sitter_typescript::LANGUAGE_TSX.into(),
        Grammar::TypeScript => tree_sitter_typescript::LANGUAGE_TYPESCRIPT.into(),
    };
    let mut parser = Parser::new();
    parser.set_language(&language)?;
    Ok(parser.parse(source, None))
}

/// `Tree::root_node` and `Node::descendant_count`: the number of nodes of a tree.
#[verifier::external_body]
fn count_nodes(tree: &Tree) -> (count: usize)
    ensures
        count == tree_nodes(*tree).len(),
{
    tree.root_node().descendant_count()
}

/// `Tree::walk`: a cursor at the root of a tree.
#[verifier::external_body]
fn walk<'tree>(tree: &'tree Tree) -> (cursor: TreeCursor<'tree>)
    ensures
        cursor_nodes(cursor) == tree_nodes(*tree),
{
    tree.walk()
}

/// `TreeCursor::goto_descendant` and the accessors of `TreeCursor` and `Node` there: reads the
/// node at a position in the preorder of what the cursor walks, with its kind, its depth, the
/// bytes and rows it spans, and the spans of what `Node::child_by_field_name` finds for two
/// fields. The cursor still walks the same nodes. The names of fields are looked up as strings
/// that end in a null character, with a length of 32 bits.
#[verifier::external_body]
fn read_node(
    cursor: &mut TreeCursor<'_>,
    position: usize,
    name_field: &str,
    function_field: &str,
) -> (record: NodeRecord)
    requires
        position < cursor_nodes(*old(cursor)).len(),
        !name_field@.contains('\0'),
        !function_field@.contains('\0'),
        utf8::encode_utf8(name_field@).len() <= u32::MAX,
        utf8::encode_utf8(function_field@).len() <= u32::MAX,
    ensures
        record.is_of(cursor_nodes(*old(cursor))[position as int], name_field@, function_field@),
        cursor_nodes(*final(cursor)) == cursor_nodes(*old(cursor)),
{
    cursor.goto_descendant(position);
    let node = cursor.node();
    let name = node.child_by_field_name(name_field);
    let function = node.child_by_field_name(function_field);
    NodeRecord {
        kind: node.kind().to_string(),
        depth: cursor.depth() as usize,
        span: (node.start_byte(), node.end_byte()),
        rows: (node.start_position().row, node.end_position().row),
        name: name.map(|child| (child.start_byte(), child.end_byte())),
        function: function.map(|child| (child.start_byte(), child.end_byte())),
    }
}

/// `std::str::from_utf8`: the text that some bytes encode, if they are valid UTF-8.
#[verifier::external_body]
fn text_from_utf8(bytes: &[u8]) -> (text: Option<String>)
    ensures
        text is Some <==> utf8::valid_utf8(bytes@),
        text matches Some(text) ==> utf8::encode_utf8(text@) == bytes@,
{
    std::str::from_utf8(bytes).ok().map(String::from)
}

/// A node of a syntax tree together with the text it stands for.
#[derive(Debug)]
pub struct SyntaxNode {
    pub kind: String,
    /// The number of ancestors of the node.
    pub depth: usize,
    /// The source text of the node, unless it is no valid UTF-8.
    pub text: Option<String>,
    /// The row in which the node starts, and the row in which it ends.
    pub rows: (usize, usize),
    /// The text of the first child in the field `name`, if there is such a child.
    pub name: Option<Option<String>>,
    /// The text of the first child in the field `function`, if there is such a child.
    pub function: Option<Option<String>>,
}

/// The content of a `SyntaxNode`.
pub struct SyntaxNodeView {
    pub kind: Seq<char>,
    pub depth: nat,
    pub text: Option<Seq<char>>,
    pub rows: (usize, usize),
    pub name: Option<Option<Seq<char>>>,
    pub function: Option<Option<Seq<char>>>,
}

/// The content of a text that may be missing.
pub open spec fn text_view(text: Option<String>) -> Option<Seq<char>> {
    match text {
        Some(text) => Some(text@),
        None => None,
    }
}

/// The content of the text of a child that may be missing.
pub open spec fn child_view(child: Option<Option<String>>) -> Option<Option<Seq<char>>> {
    match child {
        Some(text) => Some(text_view(text)),
        None => None,
    }
}

impl View for SyntaxNode {
    type V = SyntaxNodeView;

    open spec fn view(&self) -> SyntaxNodeView {
        SyntaxNodeView {
            kind: self.kind@,
            depth: self.depth as nat,
            text: text_view(self.text),
            rows: self.rows,
            name: child_view(self.name),
            function: child_view(self.function),
        }
    }
}

/// The contents of a list of nodes.
pub open spec fn node_views(nodes: Seq<SyntaxNode>) -> Seq<SyntaxNodeView> {
    nodes.map_values(|node: SyntaxNode| node@)
}

/// The part of a source text that a span covers: none where the span is not within the source,
/// or its bytes are no valid UTF-8.
pub open spec fn text_at(source: Seq<char>, span: Span) -> Option<Seq<char>> {
    let bytes = utf8::encode_utf8(source);
    if span.0 <= span.1 <= bytes.len() && utf8::valid_utf8(
        bytes.subrange(span.0 as int, span.1 as int),
    ) {
        Some(utf8::decode_utf8(bytes.subrange(span.0 as int, span.1 as int)))
    } else {
        None
    }
}

/// The text of a child of which the span may be missing.
pub open spec fn child_text_at(source: Seq<char>, span: Option<Span>) -> Option<
    Option<Seq<char>>,
> {
    match span {
        Some(span) => Some(text_at(source, span)),
        None => None,
    }
}

/// A node of a tree, with the text it stands for in the source.
pub open spec fn with_text(node: TreeNode, source: Seq<char>) -> SyntaxNodeView {
    SyntaxNodeView {
        kind: node.kind,
        depth: node.depth,
        text: text_at(source, node.span),
        rows: node.rows,
        name: child_text_at(source, field_span(node, "name"@)),
        function: child_text_at(source, field_span(node, "function"@)),
    }
}

/// The nodes of a tree, with the text they stand for in the source.
pub open spec fn nodes_with_text(nodes: Seq<TreeNode>, source: Seq<char>) -> Seq<SyntaxNodeView> {
    nodes.map_values(|node: TreeNode| with_text(node, source))
}

/// The part of a source text that a span covers, if it is valid UTF-8.
fn span_text(source: &str, span: Span) -> (text: Option<String>)
    ensures
        text_view(text) == text_at(source@, span),
{
    let bytes = source.as_bytes();
    if span.0 > span.1 || span.1 > bytes.len() {
        return None;
    }
    let part = vstd::slice::slice_subrange(bytes, span.0, span.1);
    let text = text_from_utf8(part);
    proof {
        if text is Some {
            utf8::encode_utf8_decode_utf8(text->0@);
        }
    }
    text
}

/// The text of a child of which the span may be missing.
fn child_span_text(source: &str, span: Option<Span>) -> (text: Option<Option<String>>)
    ensures
        child_view(text) == child_text_at(source@, span),
{
    match span {
        Some(span) => Some(span_text(source, span)),
        None => None,
    }
}

/// The names of the fields that are read are plain.
proof fn lemma_field_names()
    ensures
        !"name"@.contains('\0'),
        !"function"@.contains('\0'),
        utf8::encode_utf8("name"@).len() <= u32::MAX,
        utf8::encode_utf8("function"@).len() <= u32::MAX,
{
    reveal_strlit("name");
    reveal_strlit("function");
    lemma_encoding_bound("name"@);
    lemma_encoding_bound("function"@);
}

proof fn lemma_encoding_bound(text: Seq<char>)
    ensures
        utf8::encode_utf8(text).len() <= 4 * text.len(),
    decreases text.len(),
{
    if text.len() > 0 {
        lemma_encoding_bound(text.drop_first());
    }
}

/// The nodes of a tree, each with the text it stands for in the source from which the tree was
/// made.
pub(crate) fn syntax_nodes(tree: &Tree, source: &str) -> (nodes: Vec<SyntaxNode>)
    ensures
        node_views(nodes@) == nodes_with_text(tree_nodes(*tree), source@),
{
    proof {
        lemma_field_names();
    }
    let count = count_nodes(tree);
    let mut cursor = walk(tree);
    let mut nodes: Vec<SyntaxNode> = Vec::new();
    let mut i: usize = 0;
    while i < count
        invariant
            0 <= i <= count,
            nodes.len() == i,
            count == tree_nodes(*tree).len(),
            cursor_nodes(cursor) == tree_nodes(*tree),
            !"name"@.contains('\0'),
            !"function"@.contains('\0'),
            utf8::encode_utf8("name"@).len() <= u32::MAX,
            utf8::encode_utf8("function"@).len() <= u32::MAX,
            forall|k: int|
                0 <= k < i ==> (#[trigger] nodes[k])@ == with_text(tree_nodes(*tree)[k], source@),
        decreases count - i,
    {
        let record = read_node(&mut cursor, i, "name", "function");
        let node = SyntaxNode {
            kind: record.kind,
            depth: record.depth,
            text: span_text(source, record.span),
            rows: record.rows,
            name: child_span_text(source, record.name),
            function: child_span_text(source, record.function),
        };
        nodes.push(node);
        i += 1;
    }
    assert(node_views(nodes@) =~= nodes_with_text(tree_nodes(*tree), source@));
    nodes
}

// Laws of syntax trees

/// A span has a text exactly if it lies within the source and its bytes are the encoding of that
/// text.
pub proof fn law_span_has_the_text_it_encodes(source: Seq<char>, span: Span, text: Seq<char>)
    ensures
        text_at(source, span) == Some(text) <==> {
            &&& span.0 <= span.1 <= utf8::encode_utf8(source).len()
            &&& utf8::encode_utf8(text) == utf8::encode_utf8(source).subrange(
                span.0 as int,
                span.1 as int,
            )
        },
{
    let bytes = utf8::encode_utf8(source);
    if span.0 <= span.1 <= bytes.len() {
        let part = bytes.subrange(span.0 as int, span.1 as int);
        if utf8::valid_utf8(part) {
            utf8::decode_utf8_encode_utf8(part);
        }
        if utf8::encode_utf8(text) == part {
            utf8::encode_utf8_valid_utf8(text);
            utf8::encode_utf8_decode_utf8(text);
        }
    }
}

proof fn lemma_encoding_of_sum(left: Seq<char>, right: Seq<char>)
    ensures
        utf8::encode_utf8(left + right) == utf8::encode_utf8(left) + utf8::encode_utf8(right),
    decreases left.len(),
{
    if left.len() == 0 {
        assert(left + right =~= right);
        assert(utf8::encode_utf8(left) + utf8::encode_utf8(right) =~= utf8::encode_utf8(right));
    } else {
        let rest = left.drop_first();
        lemma_encoding_of_sum(rest, right);
        assert((left + right).drop_first() =~= rest + right);
        assert(utf8::encode_utf8(left + right) =~= utf8::encode_utf8(left) + utf8::encode_utf8(
            right,
        ));
    }
}

/// A span that starts where a text starts in a source and is as long has that text.
pub proof fn law_span_gives_back_the_text(
    before: Seq<char>,
    text: Seq<char>,
    after: Seq<char>,
    span: Span,
)
    requires
        span.0 == utf8::encode_utf8(before).len(),
        span.1 == span.0 + utf8::encode_utf8(text).len(),
    ensures
        text_at(before + text + after, span) == Some(text),
{
    lemma_encoding_of_sum(before + text, after);
    lemma_encoding_of_sum(before, text);
    let bytes = utf8::encode_utf8(before + text + after);
    assert(bytes.subrange(span.0 as int, span.1 as int) =~= utf8::encode_utf8(text));
    law_span_has_the_text_it_encodes(before + text + after, span, text);
}

/// The nodes of a tree with their texts are the nodes of the tree: each at its place, with its
/// kind, depth and rows, the text of its span, and the texts of its children in the fields
/// `name` and `function`.
pub proof fn law_nodes_keep_what_they_are(tree: Seq<TreeNode>, source: Seq<char>, i: int)
    requires
        0 <= i < tree.len(),
    ensures
        nodes_with_text(tree, source).len() == tree.len(),
        ({
            let node = nodes_with_text(tree, source)[i];
            &&& node.kind == tree[i].kind
            &&& node.depth == tree[i].depth
            &&& node.rows == tree[i].rows
            &&& node.text == text_at(source, tree[i].span)
            &&& tree[i].fields.contains_key("name"@) ==> node.name == Some(
                text_at(source, tree[i].fields["name"@]),
            )
            &&& !tree[i].fields.contains_key("name"@) ==> node.name is None
            &&& tree[i].fields.contains_key("function"@) ==> node.function == Some(
                text_at(source, tree[i].fields["function"@]),
            )
            &&& !tree[i].fields.contains_key("function"@) ==> node.function is None
        }),
{
}

/// The content of a node is what the node holds.
pub proof fn law_content_of_a_node(node: SyntaxNode, nodes: Seq<SyntaxNode>, i: int)
    requires
        0 <= i < nodes.len(),
    ensures
        node@.kind == node.kind@,
        node@.depth == node.depth,
        node@.rows == node.rows,
        node@.text is Some <==> node.text is Some,
        node.text matches Some(text) ==> node@.text == Some(text@),
        node@.name is Some <==> node.name is Some,
        node.name matches Some(None) ==> node@.name == Some(None::<Seq<char>>),
        node.name matches Some(Some(name)) ==> node@.name == Some(Some(name@)),
        node@.function is Some <==> node.function is Some,
        node.function matches Some(None) ==> node@.function == Some(None::<Seq<char>>),
        node.function matches Some(Some(function)) ==> node@.function == Some(Some(function@)),
        node_views(nodes).len() == nodes.len(),
        node_views(nodes)[i] == nodes[i]@,
{
}

} // verus!
