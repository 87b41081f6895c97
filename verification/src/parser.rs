//! Extraction of symbols, calls and imports from source files.

use vstd::prelude::*;
use vstd::utf8;

use crate::syntax;
use crate::syntax::{Grammar, Span, SyntaxNode, SyntaxNodeView, TreeNode};
use crate::text;
use crate::types;
use crate::types::{FileParseResult, FileParseResultView, ParsedSymbol, ParsedSymbolView};

verus! {

/// The grammar for a file, by the extension of its path.
pub open spec fn grammar_of(file_path: Seq<char>) -> Option<Grammar> {
    if ".js"@.is_suffix_of(file_path) || ".jsx"@.is_suffix_of(file_path) {
        Some(Grammar::JavaScript)
    } else if ".tsx"@.is_suffix_of(file_path) {
        Some(Grammar::Tsx)
    } else if ".ts"@.is_suffix_of(file_path) {
        Some(Grammar::TypeScript)
    } else {
        None
    }
}

/// Selects the grammar for a file by the extension of its path.
pub fn get_language(file_path: &str) -> (grammar: Option<Grammar>)
    ensures
        grammar == grammar_of(file_path@),
{
    if text::ends_with(file_path, ".js") || text::ends_with(file_path, ".jsx") {
        Some(Grammar::JavaScript)
    } else if text::ends_with(file_path, ".tsx") {
        Some(Grammar::Tsx)
    } else if text::ends_with(file_path, ".ts") {
        Some(Grammar::TypeScript)
    } else {
        None
    }
}

/// Whether a node is an import.
pub open spec fn is_import(kind: Seq<char>) -> bool {
    kind == "import_statement"@ || kind == "import_declaration"@
}

/// Whether a node is a definition that is named by its own field `name`.
pub open spec fn is_named_definition(kind: Seq<char>) -> bool {
    ||| kind == "function_declaration"@
    ||| kind == "method_definition"@
    ||| kind == "function_expression"@
    ||| kind == "class_declaration"@
}

/// The module that a node names, if it is a string: its text without the quotes around it.
pub open spec fn module_named(node: SyntaxNodeView) -> Seq<Seq<char>> {
    if node.kind == "string"@ && node.text is Some {
        seq![text::trimmed_of(text::trimmed_of(node.text->0, '"'), '\'')]
    } else {
        Seq::empty()
    }
}

/// The modules named by those children of the node at `i` that stand at `from` or later.
pub open spec fn child_modules(nodes: Seq<SyntaxNodeView>, i: int, from: int) -> Seq<Seq<char>>
    decreases nodes.len() - from,
{
    if !(0 <= i < from < nodes.len()) || nodes[from].depth <= nodes[i].depth {
        Seq::empty()
    } else if nodes[from].depth == nodes[i].depth + 1 {
        module_named(nodes[from]) + child_modules(nodes, i, from + 1)
    } else {
        child_modules(nodes, i, from + 1)
    }
}

/// The modules that the node at `i` imports.
pub open spec fn imports_at(nodes: Seq<SyntaxNodeView>, i: int) -> Seq<Seq<char>> {
    if is_import(nodes[i].kind) {
        child_modules(nodes, i, i + 1)
    } else {
        Seq::empty()
    }
}

/// The last position before `before` of a node that is less deep than the node at `i`, or -1
/// if there is none: the parent of the node at `i`, where `before` is `i`.
pub open spec fn parent_before(nodes: Seq<SyntaxNodeView>, i: int, before: int) -> int
    decreases before,
{
    if before <= 0 {
        -1
    } else if nodes[before - 1].depth < nodes[i].depth {
        before - 1
    } else {
        parent_before(nodes, i, before - 1)
    }
}

/// The text of a child, if there is one and it has a text.
pub open spec fn child_text(child: Option<Option<Seq<char>>>) -> Option<Seq<char>> {
    match child {
        Some(text) => text,
        None => None,
    }
}

/// The name that the node at `i` gives to a symbol, if it defines one. An arrow function
/// without a name of its own is named by the variable that it is the value of.
pub open spec fn symbol_name_at(nodes: Seq<SyntaxNodeView>, i: int) -> Option<Seq<char>> {
    let node = nodes[i];
    if is_named_definition(node.kind) {
        child_text(node.name)
    } else if node.kind == "arrow_function"@ {
        if node.name is Some {
            child_text(node.name)
        } else {
            let parent = parent_before(nodes, i, i);
            if parent >= 0 && nodes[parent].kind == "variable_declarator"@ {
                child_text(nodes[parent].name)
            } else {
                None
            }
        }
    } else {
        None
    }
}

/// The symbol that the node at `i` defines, if it defines one.
pub open spec fn symbols_at(nodes: Seq<SyntaxNodeView>, i: int, file_path: Seq<char>) -> Seq<
    ParsedSymbolView,
> {
    let node = nodes[i];
    if symbol_name_at(nodes, i) is Some && node.text is Some {
        seq![
            ParsedSymbolView {
                name: symbol_name_at(nodes, i)->0,
                symbol_type: node.kind,
                file_path,
                start_line: node.rows.0 as nat,
                end_line: node.rows.1 as nat,
                code: node.text->0,
            },
        ]
    } else {
        Seq::empty()
    }
}

/// The callee that the node at `i` calls, as written, if it is a call.
pub open spec fn calls_at(nodes: Seq<SyntaxNodeView>, i: int) -> Seq<Seq<char>> {
    let node = nodes[i];
    if node.kind == "call_expression"@ && child_text(node.function) is Some {
        seq![child_text(node.function)->0]
    } else {
        Seq::empty()
    }
}

/// What is found in the first `count` nodes of a tree, in the order of the nodes.
pub open spec fn found_in(nodes: Seq<SyntaxNodeView>, file_path: Seq<char>, count: int) -> FileParseResultView
    decreases count,
{
    if count <= 0 {
        FileParseResultView::nothing_in(file_path)
    } else {
        let before = found_in(nodes, file_path, count - 1);
        FileParseResultView {
            file_path,
            symbols: before.symbols + symbols_at(nodes, count - 1, file_path),
            calls: before.calls + calls_at(nodes, count - 1),
            imports: before.imports + imports_at(nodes, count - 1),
        }
    }
}

/// A copy of the text of a child, if there is one and it has a text.
fn copy_child_text(child: &Option<Option<String>>) -> (copy: Option<String>)
    ensures
        syntax::text_view(copy) == child_text(syntax::child_view(*child)),
{
    match child {
        Some(Some(text)) => Some(text.clone()),
        _ => None,
    }
}

/// Adds the modules that the children of an import name.
fn add_imports(nodes: &Vec<SyntaxNode>, i: usize, imports: &mut Vec<String>)
    requires
        i < nodes.len(),
    ensures
        types::string_views(final(imports)@) == types::string_views(old(imports)@) + child_modules(
            syntax::node_views(nodes@),
            i as int,
            i + 1,
        ),
{
    let ghost views = syntax::node_views(nodes@);
    let ghost start = types::string_views(imports@);
    let mut j: usize = i + 1;
    while j < nodes.len() && nodes[j].depth > nodes[i].depth
        invariant
            i < j <= nodes.len(),
            views == syntax::node_views(nodes@),
            types::string_views(imports@) + child_modules(views, i as int, j as int) == start
                + child_modules(views, i as int, i + 1),
        decreases nodes.len() - j,
    {
        let child = &nodes[j];
        let ghost before = imports@;
        assert(views[j as int] == child@);
        assert(views[i as int] == nodes[i as int]@);
        if child.depth - 1 == nodes[i].depth && text::same_text(child.kind.as_str(), "string") {
            if let Some(quoted) = &child.text {
                let unquoted = text::trim_char(quoted.as_str(), '"');
                let module = text::trim_char(unquoted.as_str(), '\'');
                imports.push(module);
                assert(types::string_views(imports@) =~= types::string_views(before) + module_named(
                    child@,
                ));
            }
        }
        assert(types::string_views(imports@) + child_modules(views, i as int, j + 1)
            =~= types::string_views(before) + child_modules(views, i as int, j as int));
        j += 1;
    }
    assert(j < nodes.len() ==> views[j as int] == nodes[j as int]@);
    assert(views[i as int] == nodes[i as int]@);
    assert(child_modules(views, i as int, j as int) =~= Seq::empty());
    assert(types::string_views(imports@) =~= start + child_modules(views, i as int, i + 1));
}

/// The parent of a node, if it has one.
fn parent_of(nodes: &Vec<SyntaxNode>, i: usize) -> (parent: Option<usize>)
    requires
        i < nodes.len(),
    ensures
        match parent {
            Some(parent) => parent < i && parent == parent_before(
                syntax::node_views(nodes@),
                i as int,
                i as int,
            ),
            None => parent_before(syntax::node_views(nodes@), i as int, i as int) == -1,
        },
{
    let ghost views = syntax::node_views(nodes@);
    let mut before: usize = i;
    while before > 0
        invariant
            before <= i < nodes.len(),
            views == syntax::node_views(nodes@),
            parent_before(views, i as int, before as int) == parent_before(
                views,
                i as int,
                i as int,
            ),
        decreases before,
    {
        assert(views[before - 1] == nodes[before - 1]@);
        assert(views[i as int] == nodes[i as int]@);
        if nodes[before - 1].depth < nodes[i].depth {
            return Some(before - 1);
        }
        before -= 1;
    }
    None
}

/// The name that a node gives to a symbol, if it defines one.
fn symbol_name(nodes: &Vec<SyntaxNode>, i: usize) -> (name: Option<String>)
    requires
        i < nodes.len(),
    ensures
        syntax::text_view(name) == symbol_name_at(syntax::node_views(nodes@), i as int),
{
    let ghost views = syntax::node_views(nodes@);
    let node = &nodes[i];
    assert(views[i as int] == node@);
    let kind = node.kind.as_str();
    if text::same_text(kind, "function_declaration") || text::same_text(kind, "method_definition")
        || text::same_text(kind, "function_expression") || text::same_text(
        kind,
        "class_declaration",
    ) {
        copy_child_text(&node.name)
    } else if text::same_text(kind, "arrow_function") {
        if node.name.is_some() {
            copy_child_text(&node.name)
        } else {
            match parent_of(nodes, i) {
                Some(parent) => {
                    assert(views[parent as int] == nodes[parent as int]@);
                    if text::same_text(nodes[parent].kind.as_str(), "variable_declarator") {
                        copy_child_text(&nodes[parent].name)
                    } else {
                        None
                    }
                },
                None => None,
            }
        }
    } else {
        None
    }
}

/// Walks a syntax tree, given as the list of its nodes in preorder, and adds the symbols, calls
/// and imports it holds to `result`.
pub fn traverse(nodes: &Vec<SyntaxNode>, file_path: &str, result: &mut FileParseResult)
    ensures
        final(result).file_path == old(result).file_path,
        ({
            let found = found_in(syntax::node_views(nodes@), file_path@, nodes.len() as int);
            &&& final(result)@.symbols == old(result)@.symbols + found.symbols
            &&& final(result)@.calls == old(result)@.calls + found.calls
            &&& final(result)@.imports == old(result)@.imports + found.imports
        }),
{
    let ghost views = syntax::node_views(nodes@);
    let ghost start = result@;
    let mut i: usize = 0;
    assert(result@.symbols =~= start.symbols + found_in(views, file_path@, 0).symbols);
    assert(result@.calls =~= start.calls + found_in(views, file_path@, 0).calls);
    assert(result@.imports =~= start.imports + found_in(views, file_path@, 0).imports);
    while i < nodes.len()
        invariant
            0 <= i <= nodes.len(),
            views == syntax::node_views(nodes@),
            start == old(result)@,
            result.file_path == old(result).file_path,
            result@.symbols == start.symbols + found_in(views, file_path@, i as int).symbols,
            result@.calls == start.calls + found_in(views, file_path@, i as int).calls,
            result@.imports == start.imports + found_in(views, file_path@, i as int).imports,
        decreases nodes.len() - i,
    {
        let node = &nodes[i];
        assert(views[i as int] == node@);
        let kind = node.kind.as_str();
        let ghost before = result@;

        if text::same_text(kind, "import_statement") || text::same_text(
            kind,
            "import_declaration",
        ) {
            add_imports(nodes, i, &mut result.imports);
        }
        if let Some(name) = symbol_name(nodes, i) {
            if let Some(code) = &node.text {
                let symbol = ParsedSymbol {
                    name,
                    symbol_type: node.kind.clone(),
                    file_path: file_path.to_string(),
                    start_line: node.rows.0,
                    end_line: node.rows.1,
                    code: code.clone(),
                };
                let ghost symbols = result.symbols@;
                result.symbols.push(symbol);
                assert(types::symbol_views(result.symbols@) =~= types::symbol_views(symbols).push(
                    symbol@,
                ));
            }
        }
        if text::same_text(kind, "call_expression") {
            if let Some(callee) = copy_child_text(&node.function) {
                let ghost calls = result.calls@;
                result.calls.push(callee);
                assert(types::string_views(result.calls@) =~= types::string_views(calls).push(
                    callee@,
                ));
            }
        }
        proof {
            let next = found_in(views, file_path@, i + 1);
            assert(result@.symbols =~= before.symbols + symbols_at(views, i as int, file_path@));
            assert(result@.calls =~= before.calls + calls_at(views, i as int));
            assert(result@.imports =~= before.imports + imports_at(views, i as int));
            assert(result@.symbols =~= start.symbols + next.symbols);
            assert(result@.calls =~= start.calls + next.calls);
            assert(result@.imports =~= start.imports + next.imports);
        }
        i += 1;
    }
}

/// Why a source file could not be parsed.
#[derive(Debug, Clone, Copy, PartialEq, Eq, Structural)]
pub enum ParseError {
    /// The grammar for the file cannot be loaded.
    Language,
    /// The parser made no syntax tree of the file.
    Source,
}

impl ParseError {
    /// What to tell the user.
    pub open spec fn message_of(self) -> Seq<char> {
        match self {
            ParseError::Language => "Failed to set tree-sitter language"@,
            ParseError::Source => "Failed to parse source file"@,
        }
    }

    /// What to tell the user.
    pub fn message(&self) -> (message: String)
        ensures
            message@ == self.message_of(),
    {
        match self {
            ParseError::Language => "Failed to set tree-sitter language".to_string(),
            ParseError::Source => "Failed to parse source file".to_string(),
        }
    }
}

/// The outcome of parsing a file, given what the parser makes of its source: nothing is found
/// in a file of another language.
pub open spec fn parse_outcome(
    file_path: Seq<char>,
    loads: bool,
    tree: Option<Seq<SyntaxNodeView>>,
) -> Result<FileParseResultView, ParseError> {
    if grammar_of(file_path) is None {
        Ok(FileParseResultView::nothing_in(file_path))
    } else if !loads {
        Err(ParseError::Language)
    } else {
        match tree {
            Some(nodes) => Ok(found_in(nodes, file_path, nodes.len() as int)),
            None => Err(ParseError::Source),
        }
    }
}

/// The content of the outcome of parsing a file.
pub open spec fn outcome_view(outcome: Result<FileParseResult, ParseError>) -> Result<
    FileParseResultView,
    ParseError,
> {
    match outcome {
        Ok(result) => Ok(result@),
        Err(error) => Err(error),
    }
}

/// The content of a tree that may be missing.
pub open spec fn tree_view(tree: Option<Vec<SyntaxNode>>) -> Option<Seq<SyntaxNodeView>> {
    match tree {
        Some(nodes) => Some(syntax::node_views(nodes@)),
        None => None,
    }
}

/// The outcome of parsing a file, given whether its grammar loads and what tree the parser made
/// of its source.
pub fn file_outcome(file_path: &str, loads: bool, tree: Option<Vec<SyntaxNode>>) -> (outcome:
    Result<FileParseResult, ParseError>)
    ensures
        outcome_view(outcome) == parse_outcome(file_path@, loads, tree_view(tree)),
{
    let mut result = FileParseResult {
        file_path: file_path.to_string(),
        ..FileParseResult::default()
    };
    if get_language(file_path).is_none() {
        return Ok(result);
    }
    if !loads {
        return Err(ParseError::Language);
    }
    match tree {
        Some(nodes) => {
            traverse(&nodes, file_path, &mut result);
            assert(result@ =~= found_in(
                syntax::node_views(nodes@),
                file_path@,
                nodes.len() as int,
            ));
            Ok(result)
        },
        None => Err(ParseError::Source),
    }
}

/// Parses a source file and extracts symbols, calls and imports. The parser counts bytes in 32
/// bits, so a source that is parsed is shorter than that many bytes. Source with syntax errors
/// is parsed, too.
pub fn parse_file(file_path: &str, code: &str) -> (outcome: Result<FileParseResult, ParseError>)
    requires
        grammar_of(file_path@) is Some ==> utf8::encode_utf8(code@).len() < u32::MAX,
    ensures
        match grammar_of(file_path@) {
            Some(grammar) => exists|tree: Seq<TreeNode>| #[trigger]
                syntax::parses_to(grammar, code@, tree) && syntax::placed_in(tree, code@)
                    && outcome_view(outcome) == parse_outcome(
                    file_path@,
                    true,
                    Some(syntax::nodes_with_text(tree, code@)),
                ),
            None => outcome_view(outcome) == Ok::<FileParseResultView, ParseError>(
                FileParseResultView::nothing_in(file_path@),
            ),
        },
        outcome matches Ok(result) && is_told_of(result@, file_path@, code@),
{
    let grammar = match get_language(file_path) {
        Some(grammar) => grammar,
        None => {
            return file_outcome(file_path, false, None);
        },
    };
    match syntax::parse_source(grammar, code) {
        Ok(Some(tree)) => {
            let nodes = syntax::syntax_nodes(&tree, code);
            proof {
                let all = syntax::tree_nodes(tree);
                law_what_is_found_is_told_of_the_file(all, code@, file_path@, all.len() as int);
            }
            file_outcome(file_path, true, Some(nodes))
        },
        Ok(None) => file_outcome(file_path, true, None),
        Err(_) => file_outcome(file_path, false, None),
    }
}

// Laws of extraction

/// Every symbol that is found in a file carries the path of that file, and the kind of a
/// definition as its type.
pub proof fn law_symbols_belong_to_their_file(
    nodes: Seq<SyntaxNodeView>,
    file_path: Seq<char>,
    count: int,
)
    requires
        count <= nodes.len(),
    ensures
        found_in(nodes, file_path, count).file_path == file_path,
        forall|i: int|
            0 <= i < found_in(nodes, file_path, count).symbols.len() ==> {
                let symbol = #[trigger] found_in(nodes, file_path, count).symbols[i];
                &&& symbol.file_path == file_path
                &&& is_named_definition(symbol.symbol_type) || symbol.symbol_type
                    == "arrow_function"@
            },
    decreases count,
{
    if count > 0 {
        law_symbols_belong_to_their_file(nodes, file_path, count - 1);
        let before = found_in(nodes, file_path, count - 1).symbols;
        let all = found_in(nodes, file_path, count).symbols;
        assert forall|i: int| 0 <= i < all.len() implies {
            let symbol = #[trigger] all[i];
            &&& symbol.file_path == file_path
            &&& is_named_definition(symbol.symbol_type) || symbol.symbol_type
                == "arrow_function"@
        } by {
            if i < before.len() {
                assert(all[i] == before[i]);
            }
        }
    }
}

/// What is found in a tree with its path replaced.
pub open spec fn with_path(found: FileParseResultView, file_path: Seq<char>) -> FileParseResultView {
    FileParseResultView {
        file_path,
        symbols: found.symbols.map_values(
            |symbol: ParsedSymbolView| ParsedSymbolView { file_path, ..symbol },
        ),
        ..found
    }
}

/// The path of a file is only carried along: what is found in one tree under two paths differs
/// in the path alone.
pub proof fn law_path_is_only_carried_along(
    nodes: Seq<SyntaxNodeView>,
    file_path: Seq<char>,
    other_path: Seq<char>,
    count: int,
)
    ensures
        found_in(nodes, other_path, count) == with_path(
            found_in(nodes, file_path, count),
            other_path,
        ),
    decreases count,
{
    if count > 0 {
        law_path_is_only_carried_along(nodes, file_path, other_path, count - 1);
    }
    assert(found_in(nodes, other_path, count) =~= with_path(
        found_in(nodes, file_path, count),
        other_path,
    ));
}

/// What is found in a tree grows with the nodes that are read: what was found in the first
/// nodes stays, in its place.
pub proof fn law_found_in_grows(
    nodes: Seq<SyntaxNodeView>,
    file_path: Seq<char>,
    count: int,
    more: int,
)
    requires
        count <= more <= nodes.len(),
    ensures
        found_in(nodes, file_path, count).symbols.is_prefix_of(
            found_in(nodes, file_path, more).symbols,
        ),
        found_in(nodes, file_path, count).calls.is_prefix_of(
            found_in(nodes, file_path, more).calls,
        ),
        found_in(nodes, file_path, count).imports.is_prefix_of(
            found_in(nodes, file_path, more).imports,
        ),
    decreases more,
{
    if count < more && more > 0 {
        law_found_in_grows(nodes, file_path, count, more - 1);
    }
}

/// Nothing is missed and nothing is made up: a symbol, a call or an import is found in a tree if
/// and only if one of its nodes defines, makes or names it.
pub proof fn law_what_is_found_stands_in_the_tree(
    nodes: Seq<SyntaxNodeView>,
    file_path: Seq<char>,
    count: int,
    symbol: ParsedSymbolView,
    call: Seq<char>,
    import: Seq<char>,
)
    requires
        0 <= count <= nodes.len(),
    ensures
        found_in(nodes, file_path, count).symbols.contains(symbol) <==> exists|i: int|
            0 <= i < count && #[trigger] symbols_at(nodes, i, file_path).contains(symbol),
        found_in(nodes, file_path, count).calls.contains(call) <==> exists|i: int|
            0 <= i < count && #[trigger] calls_at(nodes, i).contains(call),
        found_in(nodes, file_path, count).imports.contains(import) <==> exists|i: int|
            0 <= i < count && #[trigger] imports_at(nodes, i).contains(import),
    decreases count,
{
    if count > 0 {
        let last = count - 1;
        let before = found_in(nodes, file_path, last);
        law_what_is_found_stands_in_the_tree(nodes, file_path, last, symbol, call, import);
        lemma_contains_sum(before.symbols, symbols_at(nodes, last, file_path), symbol);
        lemma_contains_sum(before.calls, calls_at(nodes, last), call);
        lemma_contains_sum(before.imports, imports_at(nodes, last), import);
    }
}

pub(crate) proof fn lemma_contains_sum<A>(left: Seq<A>, right: Seq<A>, item: A)
    ensures
        (left + right).contains(item) <==> left.contains(item) || right.contains(item),
{
    if left.contains(item) {
        let i = choose|i: int| 0 <= i < left.len() && left[i] == item;
        assert((left + right)[i] == item);
    }
    if right.contains(item) {
        let i = choose|i: int| 0 <= i < right.len() && right[i] == item;
        assert((left + right)[left.len() + i] == item);
    }
}

/// Whether a text stands somewhere in a source.
pub open spec fn is_part_of(text: Seq<char>, source: Seq<char>) -> bool {
    exists|start: int, end: int|
        0 <= start <= end <= utf8::encode_utf8(source).len() && utf8::encode_utf8(text)
            == #[trigger] utf8::encode_utf8(source).subrange(start, end)
}

proof fn lemma_text_is_part_of(source: Seq<char>, span: Span)
    ensures
        syntax::text_at(source, span) matches Some(text) ==> is_part_of(text, source),
{
    let bytes = utf8::encode_utf8(source);
    if syntax::text_at(source, span) is Some {
        let part = bytes.subrange(span.0 as int, span.1 as int);
        utf8::decode_utf8_encode_utf8(part);
    }
}

/// What is told of a file is taken from its source: the code and the name of every symbol, and
/// every callee, stand there as they are.
pub proof fn law_texts_are_taken_from_the_source(
    tree: Seq<TreeNode>,
    source: Seq<char>,
    file_path: Seq<char>,
    count: int,
)
    requires
        0 <= count <= tree.len(),
    ensures
        ({
            let found = found_in(syntax::nodes_with_text(tree, source), file_path, count);
            &&& forall|i: int|
                0 <= i < found.symbols.len() ==> is_part_of(
                    (#[trigger] found.symbols[i]).code,
                    source,
                ) && is_part_of(found.symbols[i].name, source)
            &&& forall|i: int|
                0 <= i < found.calls.len() ==> is_part_of(#[trigger] found.calls[i], source)
        }),
    decreases count,
{
    if count > 0 {
        let nodes = syntax::nodes_with_text(tree, source);
        let last = count - 1;
        let before = found_in(nodes, file_path, last);
        let found = found_in(nodes, file_path, count);
        law_texts_are_taken_from_the_source(tree, source, file_path, last);
        lemma_node_texts(tree[last], source);
        assert(nodes[last] == syntax::with_text(tree[last], source));
        let parent = parent_before(nodes, last, last);
        if parent >= 0 {
            lemma_parent_before(nodes, last, last);
            lemma_node_texts(tree[parent], source);
            assert(nodes[parent] == syntax::with_text(tree[parent], source));
        }
        assert forall|i: int| 0 <= i < found.symbols.len() implies is_part_of(
            (#[trigger] found.symbols[i]).code,
            source,
        ) && is_part_of(found.symbols[i].name, source) by {
            if i < before.symbols.len() {
                assert(found.symbols[i] == before.symbols[i]);
            }
        }
        assert forall|i: int| 0 <= i < found.calls.len() implies is_part_of(
            #[trigger] found.calls[i],
            source,
        ) by {
            if i < before.calls.len() {
                assert(found.calls[i] == before.calls[i]);
            }
        }
    }
}

/// Whether a symbol is one of a file: it carries the path of the file and the kind of a
/// definition, its code and its name stand in the source, it spans as many lines as its code
/// has line breaks, and its lines are 32-bit numbers.
pub open spec fn is_symbol_of(
    symbol: ParsedSymbolView,
    file_path: Seq<char>,
    source: Seq<char>,
) -> bool {
    &&& symbol.file_path == file_path
    &&& is_named_definition(symbol.symbol_type) || symbol.symbol_type == "arrow_function"@
    &&& is_part_of(symbol.code, source)
    &&& is_part_of(symbol.name, source)
    &&& symbol.end_line == symbol.start_line + text::line_breaks(symbol.code)
    &&& symbol.end_line <= u32::MAX
}

/// Whether what was found is told of a file: its symbols are symbols of the file, in the order
/// of the lines in which they start, and its callees stand in the source.
pub open spec fn is_told_of(
    found: FileParseResultView,
    file_path: Seq<char>,
    source: Seq<char>,
) -> bool {
    &&& found.file_path == file_path
    &&& forall|i: int|
        0 <= i < found.symbols.len() ==> is_symbol_of(
            #[trigger] found.symbols[i],
            file_path,
            source,
        )
    &&& forall|i: int, j: int|
        0 <= i <= j < found.symbols.len() ==> (#[trigger] found.symbols[i]).start_line <= (
        #[trigger] found.symbols[j]).start_line
    &&& forall|i: int|
        0 <= i < found.calls.len() ==> is_part_of(#[trigger] found.calls[i], source)
}

/// What is found in the syntax tree of a source is told of the file.
pub proof fn law_what_is_found_is_told_of_the_file(
    tree: Seq<TreeNode>,
    source: Seq<char>,
    file_path: Seq<char>,
    count: int,
)
    requires
        0 <= count <= tree.len(),
        syntax::placed_in(tree, source),
        utf8::encode_utf8(source).len() <= u32::MAX,
    ensures
        is_told_of(
            found_in(syntax::nodes_with_text(tree, source), file_path, count),
            file_path,
            source,
        ),
{
    let nodes = syntax::nodes_with_text(tree, source);
    law_symbols_belong_to_their_file(nodes, file_path, count);
    law_texts_are_taken_from_the_source(tree, source, file_path, count);
    lemma_lines(tree, source, file_path, count);
}

/// The lines of the symbols in the first `count` nodes: none starts after a later node.
proof fn lemma_lines(tree: Seq<TreeNode>, source: Seq<char>, file_path: Seq<char>, count: int)
    requires
        0 <= count <= tree.len(),
        syntax::placed_in(tree, source),
        utf8::encode_utf8(source).len() <= u32::MAX,
    ensures
        ({
            let symbols = found_in(
                syntax::nodes_with_text(tree, source),
                file_path,
                count,
            ).symbols;
            &&& forall|i: int|
                0 <= i < symbols.len() ==> {
                    let symbol = #[trigger] symbols[i];
                    &&& symbol.end_line == symbol.start_line + text::line_breaks(symbol.code)
                    &&& symbol.end_line <= u32::MAX
                }
            &&& forall|i: int, j: int|
                0 <= i <= j < symbols.len() ==> (#[trigger] symbols[i]).start_line <= (
                #[trigger] symbols[j]).start_line
            &&& forall|i: int, j: int|
                0 <= i < symbols.len() && count <= j < tree.len() ==> (
                #[trigger] symbols[i]).start_line <= (#[trigger] tree[j]).rows.0
        }),
    decreases count,
{
    if count > 0 {
        let nodes = syntax::nodes_with_text(tree, source);
        let last = count - 1;
        let before = found_in(nodes, file_path, last).symbols;
        let symbols = found_in(nodes, file_path, count).symbols;
        lemma_lines(tree, source, file_path, last);
        let node = tree[last];
        assert(nodes[last] == syntax::with_text(node, source));
        lemma_node_lines(node, source);
        assert forall|i: int| 0 <= i < symbols.len() implies {
            let symbol = #[trigger] symbols[i];
            &&& symbol.end_line == symbol.start_line + text::line_breaks(symbol.code)
            &&& symbol.end_line <= u32::MAX
        } by {
            if i < before.len() {
                assert(symbols[i] == before[i]);
            }
        }
        assert forall|i: int, j: int| 0 <= i <= j < symbols.len() implies (
        #[trigger] symbols[i]).start_line <= (#[trigger] symbols[j]).start_line by {
            if j < before.len() {
                assert(symbols[i] == before[i] && symbols[j] == before[j]);
            } else if i < before.len() {
                assert(symbols[i] == before[i]);
                assert(before[i].start_line <= tree[last].rows.0);
            }
        }
        assert forall|i: int, j: int|
            0 <= i < symbols.len() && count <= j < tree.len() implies (
        #[trigger] symbols[i]).start_line <= (#[trigger] tree[j]).rows.0 by {
            if i < before.len() {
                assert(symbols[i] == before[i]);
            } else {
                lemma_rows_grow(source, tree[last].span.0 as int, tree[j].span.0 as int);
            }
        }
    }
}

proof fn lemma_rows_grow(source: Seq<char>, start: int, end: int)
    requires
        0 <= start <= end <= utf8::encode_utf8(source).len(),
    ensures
        text::line_feeds(utf8::encode_utf8(source).take(end)) == text::line_feeds(
            utf8::encode_utf8(source).take(start),
        ) + text::line_feeds(utf8::encode_utf8(source).subrange(start, end)),
{
    let bytes = utf8::encode_utf8(source);
    assert(bytes.take(end) =~= bytes.take(start) + bytes.subrange(start, end));
    text::lemma_line_feeds_sum(bytes.take(start), bytes.subrange(start, end));
}

/// A node spans as many lines as its text has line breaks.
proof fn lemma_node_lines(node: TreeNode, source: Seq<char>)
    requires
        syntax::placed_in(seq![node], source),
        utf8::encode_utf8(source).len() <= u32::MAX,
    ensures
        syntax::text_at(source, node.span) matches Some(text) ==> node.rows.1 == node.rows.0
            + text::line_breaks(text),
        node.rows.1 <= u32::MAX,
{
    assert(seq![node][0] == node);
    let bytes = utf8::encode_utf8(source);
    let (start, end) = (node.span.0 as int, node.span.1 as int);
    lemma_rows_grow(source, start, end);
    text::lemma_line_feeds_bound(bytes.take(end));
    if let Some(text) = syntax::text_at(source, node.span) {
        utf8::decode_utf8_encode_utf8(bytes.subrange(start, end));
        text::lemma_line_feeds_of_text(text);
    }
}

proof fn lemma_parent_before(nodes: Seq<SyntaxNodeView>, i: int, before: int)
    requires
        0 <= before,
    ensures
        parent_before(nodes, i, before) < before,
    decreases before,
{
    if before > 0 && nodes[before - 1].depth >= nodes[i].depth {
        lemma_parent_before(nodes, i, before - 1);
    }
}

proof fn lemma_node_texts(node: TreeNode, source: Seq<char>)
    ensures
        ({
            let with_text = syntax::with_text(node, source);
            &&& with_text.text matches Some(text) ==> is_part_of(text, source)
            &&& child_text(with_text.name) matches Some(text) ==> is_part_of(text, source)
            &&& child_text(with_text.function) matches Some(text) ==> is_part_of(text, source)
        }),
{
    lemma_text_is_part_of(source, node.span);
    if let Some(span) = syntax::field_span(node, "name"@) {
        lemma_text_is_part_of(source, span);
    }
    if let Some(span) = syntax::field_span(node, "function"@) {
        lemma_text_is_part_of(source, span);
    }
}

/// The name of an imported module neither starts nor ends with a single quote.
pub proof fn law_modules_are_unquoted(node: SyntaxNodeView, i: int)
    requires
        0 <= i < module_named(node).len(),
        module_named(node)[i].len() > 0,
    ensures
        module_named(node)[i].first() != '\'',
        module_named(node)[i].last() != '\'',
{
    text::lemma_trimmed_of(text::trimmed_of(node.text->0, '"'), '\'');
}

/// The grammar goes by the extension: a path that ends in `.js` or `.jsx` is JavaScript, one that
/// ends in `.tsx` is TypeScript with elements, one that ends in `.ts` is TypeScript, and there is
/// no grammar for any other path.
pub proof fn law_grammar_goes_by_the_extension(stem: Seq<char>, path: Seq<char>)
    ensures
        grammar_of(stem + ".js"@) == Some(Grammar::JavaScript),
        grammar_of(stem + ".jsx"@) == Some(Grammar::JavaScript),
        grammar_of(stem + ".tsx"@) == Some(Grammar::Tsx),
        grammar_of(stem + ".ts"@) == Some(Grammar::TypeScript),
        grammar_of(path) is Some ==> ".js"@.is_suffix_of(path) || ".jsx"@.is_suffix_of(path)
            || ".tsx"@.is_suffix_of(path) || ".ts"@.is_suffix_of(path),
{
    reveal_strlit(".js");
    reveal_strlit(".jsx");
    reveal_strlit(".tsx");
    reveal_strlit(".ts");
    lemma_suffix(stem, ".js"@);
    lemma_suffix(stem, ".jsx"@);
    lemma_suffix(stem, ".tsx"@);
    lemma_suffix(stem, ".ts"@);
    lemma_last_of_suffix(stem + ".tsx"@, ".js"@);
    lemma_last_of_suffix(stem + ".tsx"@, ".jsx"@);
    lemma_last_of_suffix(stem + ".ts"@, ".js"@);
    lemma_last_of_suffix(stem + ".ts"@, ".jsx"@);
    lemma_last_of_suffix(stem + ".ts"@, ".tsx"@);
}

proof fn lemma_suffix(stem: Seq<char>, suffix: Seq<char>)
    ensures
        suffix.is_suffix_of(stem + suffix),
{
    assert((stem + suffix).subrange(stem.len() as int, (stem + suffix).len() as int) =~= suffix);
}

/// A text ends as its suffix does.
proof fn lemma_last_of_suffix(text: Seq<char>, suffix: Seq<char>)
    requires
        suffix.len() >= 3,
    ensures
        suffix.is_suffix_of(text) ==> text.len() >= 3 && text[text.len() - 1] == suffix[suffix.len()
            - 1] && text[text.len() - 2] == suffix[suffix.len() - 2] && text[text.len() - 3]
            == suffix[suffix.len() - 3],
{
    if suffix.is_suffix_of(text) {
        let end = text.subrange(text.len() - suffix.len(), text.len() as int);
        assert(end[suffix.len() - 1] == suffix[suffix.len() - 1]);
        assert(end[suffix.len() - 2] == suffix[suffix.len() - 2]);
        assert(end[suffix.len() - 3] == suffix[suffix.len() - 3]);
    }
}

/// What parsing a file comes to: nothing is found in a file without a grammar; else an error,
/// where the grammar does not load or there is no tree, and what is found in all the nodes of
/// the tree where there is one.
pub proof fn law_outcome_of_parsing(
    file_path: Seq<char>,
    loads: bool,
    nodes: Seq<SyntaxNodeView>,
    tree: Option<Seq<SyntaxNodeView>>,
)
    ensures
        grammar_of(file_path) is None ==> parse_outcome(file_path, loads, tree) == Ok::<
            FileParseResultView,
            ParseError,
        >(
            (FileParseResultView {
                file_path,
                symbols: Seq::empty(),
                calls: Seq::empty(),
                imports: Seq::empty(),
            }),
        ),
        grammar_of(file_path) is Some ==> {
            &&& parse_outcome(file_path, false, tree) == Err::<FileParseResultView, ParseError>(
                ParseError::Language,
            )
            &&& parse_outcome(file_path, true, None) == Err::<FileParseResultView, ParseError>(
                ParseError::Source,
            )
            &&& parse_outcome(file_path, true, Some(nodes)) == Ok::<
                FileParseResultView,
                ParseError,
            >(found_in(nodes, file_path, nodes.len() as int))
        },
{
}

/// The calls of a file are the texts of the callees of the call expressions in its tree: one for
/// each of them, wherever it stands, in the order of the nodes, and nothing else.
pub proof fn law_calls_are_the_call_expressions(
    nodes: Seq<SyntaxNodeView>,
    file_path: Seq<char>,
    count: int,
)
    requires
        0 <= count <= nodes.len(),
    ensures
        found_in(nodes, file_path, count).calls == nodes.take(count).filter(
            |node: SyntaxNodeView|
                node.kind == "call_expression"@ && node.function is Some
                    && node.function->0 is Some,
        ).map_values(|node: SyntaxNodeView| node.function->0->0),
    decreases count,
{
    reveal(Seq::filter);
    let is_call = |node: SyntaxNodeView|
        node.kind == "call_expression"@ && node.function is Some && node.function->0 is Some;
    let callee = |node: SyntaxNodeView| node.function->0->0;
    let first = nodes.take(count);
    if count > 0 {
        law_calls_are_the_call_expressions(nodes, file_path, count - 1);
        assert(first.drop_last() =~= nodes.take(count - 1));
        assert(first.last() == nodes[count - 1]);
    }
    assert(found_in(nodes, file_path, count).calls =~= first.filter(is_call).map_values(callee));
}

/// Whether a node is the parent of the node at `i`: the last one before it that is less deep.
pub open spec fn is_parent(nodes: Seq<SyntaxNodeView>, parent: int, i: int) -> bool {
    &&& 0 <= parent < i < nodes.len()
    &&& nodes[parent].depth < nodes[i].depth
    &&& forall|j: int| parent < j < i ==> (#[trigger] nodes[j]).depth >= nodes[i].depth
}

proof fn lemma_parent_found(nodes: Seq<SyntaxNodeView>, i: int, before: int)
    requires
        0 <= before <= i < nodes.len(),
        forall|j: int| before <= j < i ==> (#[trigger] nodes[j]).depth >= nodes[i].depth,
    ensures
        ({
            let found = parent_before(nodes, i, before);
            &&& found >= 0 ==> is_parent(nodes, found, i)
            &&& forall|parent: int| #[trigger] is_parent(nodes, parent, i) ==> parent == found
        }),
    decreases before,
{
    if before > 0 && nodes[before - 1].depth >= nodes[i].depth {
        lemma_parent_found(nodes, i, before - 1);
    }
    let found = parent_before(nodes, i, before);
    assert forall|parent: int| #[trigger] is_parent(nodes, parent, i) implies parent == found by {
        if before > 0 && nodes[before - 1].depth < nodes[i].depth {
            if parent < before - 1 {
                assert(nodes[before - 1].depth >= nodes[i].depth);
            } else if parent >= before {
                assert(nodes[parent].depth >= nodes[i].depth);
            }
        } else if before <= 0 {
            assert(nodes[parent].depth >= nodes[i].depth);
        }
    }
}

/// The symbols of a file are the definitions in its tree: there is one for each function
/// declaration, method, function expression and class declaration with a name and a text,
/// wherever it stands, and one for each arrow function with a text that has a name of its own or
/// is the child of a variable declarator that has one. A symbol has the kind, the rows and the
/// text of its node. The symbols come in the order of the nodes, and there are no others. The
/// law gives the positions of their nodes.
pub proof fn law_symbols_are_the_definitions(
    nodes: Seq<SyntaxNodeView>,
    file_path: Seq<char>,
    count: int,
) -> (at: Seq<int>)
    requires
        0 <= count <= nodes.len(),
    ensures
        at.len() == found_in(nodes, file_path, count).symbols.len(),
        forall|k: int, l: int| 0 <= k < l < at.len() ==> #[trigger] at[k] < #[trigger] at[l],
        forall|k: int|
            0 <= k < at.len() ==> {
                let node = nodes[#[trigger] at[k]];
                let symbol = found_in(nodes, file_path, count).symbols[k];
                &&& 0 <= at[k] < count
                &&& symbol.file_path == file_path
                &&& symbol.symbol_type == node.kind
                &&& symbol.start_line == node.rows.0
                &&& symbol.end_line == node.rows.1
                &&& node.text == Some(symbol.code)
                &&& {
                    ||| {
                        &&& node.kind == "function_declaration"@ || node.kind
                            == "method_definition"@ || node.kind == "function_expression"@
                            || node.kind == "class_declaration"@ || node.kind == "arrow_function"@
                        &&& node.name == Some(Some(symbol.name))
                    }
                    ||| {
                        &&& node.kind == "arrow_function"@
                        &&& node.name is None
                        &&& exists|parent: int| #[trigger]
                            is_parent(nodes, parent, at[k]) && nodes[parent].kind
                                == "variable_declarator"@ && nodes[parent].name == Some(
                                Some(symbol.name),
                            )
                    }
                }
            },
        forall|i: int|
            {
                &&& 0 <= i < count
                &&& (#[trigger] nodes[i]).text is Some
                &&& nodes[i].name is Some
                &&& nodes[i].name->0 is Some
                &&& nodes[i].kind == "function_declaration"@ || nodes[i].kind
                    == "method_definition"@ || nodes[i].kind == "function_expression"@
                    || nodes[i].kind == "class_declaration"@ || nodes[i].kind == "arrow_function"@
            } ==> at.contains(i),
        forall|i: int, parent: int|
            {
                &&& 0 <= i < count
                &&& #[trigger] is_parent(nodes, parent, i)
                &&& nodes[i].kind == "arrow_function"@
                &&& nodes[i].text is Some
                &&& nodes[i].name is None
                &&& nodes[parent].kind == "variable_declarator"@
                &&& nodes[parent].name is Some
                &&& nodes[parent].name->0 is Some
            } ==> at.contains(i),
    decreases count,
{
    if count <= 0 {
        Seq::empty()
    } else {
        let last = count - 1;
        let before = law_symbols_are_the_definitions(nodes, file_path, last);
        let symbols = found_in(nodes, file_path, count).symbols;
        let earlier = found_in(nodes, file_path, last).symbols;
        lemma_kinds_differ();
        lemma_parent_found(nodes, last, last);
        let parent = parent_before(nodes, last, last);
        let new = symbol_name_at(nodes, last) is Some && nodes[last].text is Some;
        let at = if new {
            before.push(last)
        } else {
            before
        };
        assert forall|k: int| 0 <= k < earlier.len() implies #[trigger] symbols[k]
            == earlier[k] && at[k] == before[k] by {
        }
        if new {
            assert(symbols[earlier.len() as int] == symbols_at(nodes, last, file_path)[0]);
            if nodes[last].kind == "arrow_function"@ && nodes[last].name is None {
                assert(is_parent(nodes, parent, last));
            }
        }
        assert forall|k: int| 0 <= k < at.len() implies {
            let node = nodes[#[trigger] at[k]];
            let symbol = symbols[k];
            &&& 0 <= at[k] < count
            &&& symbol.file_path == file_path
            &&& symbol.symbol_type == node.kind
            &&& symbol.start_line == node.rows.0
            &&& symbol.end_line == node.rows.1
            &&& node.text == Some(symbol.code)
        } by {
            if k < before.len() {
                assert(at[k] == before[k]);
                assert(symbols[k] == earlier[k]);
            }
        }
        assert forall|k: int| 0 <= k < before.len() implies at[k] == #[trigger] before[k]
            && symbols[k] == earlier[k] by {
            assert(symbols[k] == earlier[k]);
        }
        assert forall|i: int| before.contains(i) || (new && i == last) implies #[trigger] at.contains(
            i,
        ) by {
            if before.contains(i) {
                let k = choose|k: int| 0 <= k < before.len() && before[k] == i;
                assert(at[k] == i);
            } else {
                assert(at[before.len() as int] == last);
            }
        }
        at
    }
}

/// The kinds of definitions that are named by their own name alone differ from that of arrow
/// functions.
proof fn lemma_kinds_differ()
    ensures
        !is_named_definition("arrow_function"@),
{
    reveal_strlit("arrow_function");
    reveal_strlit("function_declaration");
    reveal_strlit("method_definition");
    reveal_strlit("function_expression");
    reveal_strlit("class_declaration");
    assert("arrow_function"@.len() == 14);
    assert("function_declaration"@.len() == 20);
    assert("method_definition"@.len() == 17);
    assert("function_expression"@.len() == 19);
    assert("class_declaration"@.len() == 17);
}

/// Every named function, method and class is found, wherever it stands in the tree: with its
/// name, its kind, its rows and its text.
pub proof fn law_every_definition_is_found(
    nodes: Seq<SyntaxNodeView>,
    file_path: Seq<char>,
    i: int,
    name: Seq<char>,
    code: Seq<char>,
)
    requires
        0 <= i < nodes.len(),
        nodes[i].kind == "function_declaration"@ || nodes[i].kind == "method_definition"@
            || nodes[i].kind == "function_expression"@ || nodes[i].kind == "class_declaration"@
            || nodes[i].kind == "arrow_function"@,
        nodes[i].name == Some(Some(name)),
        nodes[i].text == Some(code),
    ensures
        found_in(nodes, file_path, nodes.len() as int).symbols.contains(
            (ParsedSymbolView {
                name,
                symbol_type: nodes[i].kind,
                file_path,
                start_line: nodes[i].rows.0 as nat,
                end_line: nodes[i].rows.1 as nat,
                code,
            }),
        ),
{
    let at = law_symbols_are_the_definitions(nodes, file_path, nodes.len() as int);
    assert(nodes[i].text is Some);
    let k = choose|k: int| 0 <= k < at.len() && at[k] == i;
    let symbol = found_in(nodes, file_path, nodes.len() as int).symbols[k];
    assert(nodes[at[k]].text == Some(symbol.code));
    assert(symbol.name == name);
}

/// Whether the node at `j` is a child of the node at `i`.
pub open spec fn is_child(nodes: Seq<SyntaxNodeView>, i: int, j: int) -> bool {
    &&& 0 <= i < j < nodes.len()
    &&& nodes[j].depth == nodes[i].depth + 1
    &&& forall|k: int| i < k < j ==> (#[trigger] nodes[k]).depth > nodes[i].depth
}

/// Whether a module is what the text of a string names: the text without the double quotes, then
/// without the single quotes, around it.
pub open spec fn names_module(text: Seq<char>, module: Seq<char>) -> bool {
    exists|inner: Seq<char>| #[trigger]
        text::is_stripped(text, inner, '"') && text::is_stripped(inner, module, '\'')
}

proof fn lemma_child_modules(nodes: Seq<SyntaxNodeView>, i: int, from: int) -> (at: Seq<int>)
    requires
        0 <= i < from <= nodes.len(),
        forall|k: int| i < k < from ==> (#[trigger] nodes[k]).depth > nodes[i].depth,
    ensures
        at.len() == child_modules(nodes, i, from).len(),
        forall|k: int, l: int| 0 <= k < l < at.len() ==> #[trigger] at[k] < #[trigger] at[l],
        forall|k: int|
            0 <= k < at.len() ==> {
                &&& from <= #[trigger] at[k]
                &&& is_child(nodes, i, at[k])
                &&& nodes[at[k]].kind == "string"@
                &&& nodes[at[k]].text matches Some(text)
                &&& names_module(text, child_modules(nodes, i, from)[k])
            },
        forall|j: int|
            from <= j && #[trigger] is_child(nodes, i, j) && nodes[j].kind == "string"@
                && nodes[j].text is Some ==> at.contains(j),
    decreases nodes.len() - from,
{
    if from == nodes.len() {
        Seq::empty()
    } else if nodes[from].depth <= nodes[i].depth {
        assert forall|j: int| from <= j && #[trigger] is_child(nodes, i, j) implies false by {
            if j > from {
                assert(nodes[from].depth > nodes[i].depth);
            }
        }
        Seq::empty()
    } else {
        let rest = lemma_child_modules(nodes, i, from + 1);
        let node = nodes[from];
        let all = child_modules(nodes, i, from);
        let later = child_modules(nodes, i, from + 1);
        if node.depth == nodes[i].depth + 1 && node.kind == "string"@ && node.text is Some {
            let at = seq![from] + rest;
            let text = node.text->0;
            let inner = text::trimmed_of(text, '"');
            text::law_trimming_leaves_the_core(text, '"');
            text::law_trimming_leaves_the_core(inner, '\'');
            assert(text::is_stripped(text, inner, '"'));
            assert(all =~= seq![text::trimmed_of(inner, '\'')] + later);
            assert(names_module(text, all[0]));
            assert forall|k: int| 0 <= k < at.len() implies {
                &&& from <= #[trigger] at[k]
                &&& is_child(nodes, i, at[k])
                &&& nodes[at[k]].kind == "string"@
                &&& nodes[at[k]].text matches Some(text)
                &&& names_module(text, all[k])
            } by {
                if k > 0 {
                    assert(at[k] == rest[k - 1]);
                    assert(all[k] == later[k - 1]);
                }
            }
            assert forall|k: int, l: int| 0 <= k < l < at.len() implies #[trigger] at[k]
                < #[trigger] at[l] by {
                assert(at[l] == rest[l - 1]);
                if k > 0 {
                    assert(at[k] == rest[k - 1]);
                }
            }
            assert forall|j: int|
                from <= j && #[trigger] is_child(nodes, i, j) && nodes[j].kind == "string"@
                    && nodes[j].text is Some implies at.contains(j) by {
                if j == from {
                    assert(at[0] == from);
                } else {
                    let k = choose|k: int| 0 <= k < rest.len() && rest[k] == j;
                    assert(at[k + 1] == j);
                }
            }
            at
        } else {
            assert(all =~= later);
            rest
        }
    }
}

/// The imports of a file are the modules that its imports name: there is one for each string with
/// a text that is a child of an import, in the order of the imports and of their children, and
/// no others. Each is the text of the string without the quotes around it. The law gives the
/// positions of the imports and of the strings.
pub proof fn law_imports_are_the_imported_modules(
    nodes: Seq<SyntaxNodeView>,
    file_path: Seq<char>,
    count: int,
) -> (at: Seq<(int, int)>)
    requires
        0 <= count <= nodes.len(),
    ensures
        at.len() == found_in(nodes, file_path, count).imports.len(),
        forall|k: int, l: int|
            0 <= k < l < at.len() ==> (#[trigger] at[k]).0 < (#[trigger] at[l]).0 || (at[k].0
                == at[l].0 && at[k].1 < at[l].1),
        forall|k: int|
            0 <= k < at.len() ==> {
                let (i, j) = #[trigger] at[k];
                &&& 0 <= i < count
                &&& nodes[i].kind == "import_statement"@ || nodes[i].kind
                    == "import_declaration"@
                &&& is_child(nodes, i, j)
                &&& nodes[j].kind == "string"@
                &&& nodes[j].text matches Some(text)
                &&& names_module(text, found_in(nodes, file_path, count).imports[k])
            },
        forall|i: int, j: int|
            {
                &&& 0 <= i < count
                &&& nodes[i].kind == "import_statement"@ || nodes[i].kind == "import_declaration"@
                &&& #[trigger] is_child(nodes, i, j)
                &&& nodes[j].kind == "string"@
                &&& nodes[j].text is Some
            } ==> at.contains((i, j)),
    decreases count,
{
    if count <= 0 {
        Seq::empty()
    } else {
        let last = count - 1;
        let before = law_imports_are_the_imported_modules(nodes, file_path, last);
        let earlier = found_in(nodes, file_path, last).imports;
        let imports = found_in(nodes, file_path, count).imports;
        if nodes[last].kind == "import_statement"@ || nodes[last].kind == "import_declaration"@ {
            let children = lemma_child_modules(nodes, last, last + 1);
            let new = children.map_values(|j: int| (last, j));
            let at = before + new;
            assert forall|k: int| 0 <= k < at.len() implies {
                let (i, j) = #[trigger] at[k];
                &&& 0 <= i < count
                &&& nodes[i].kind == "import_statement"@ || nodes[i].kind
                    == "import_declaration"@
                &&& is_child(nodes, i, j)
                &&& nodes[j].kind == "string"@
                &&& nodes[j].text matches Some(text)
                &&& names_module(text, imports[k])
            } by {
                if k < before.len() {
                    assert(at[k] == before[k]);
                    assert(imports[k] == earlier[k]);
                } else {
                    let m = k - before.len();
                    assert(at[k] == (last, children[m]));
                    assert(imports[k] == child_modules(nodes, last, last + 1)[m]);
                }
            }
            assert forall|k: int, l: int| 0 <= k < l < at.len() implies (#[trigger] at[k]).0 < (
            #[trigger] at[l]).0 || (at[k].0 == at[l].0 && at[k].1 < at[l].1) by {
                if l < before.len() {
                    assert(at[k] == before[k] && at[l] == before[l]);
                } else if k < before.len() {
                    assert(at[k] == before[k]);
                    assert(at[l].0 == last);
                } else {
                    assert(at[k] == (last, children[k - before.len()]));
                    assert(at[l] == (last, children[l - before.len()]));
                }
            }
            assert forall|i: int, j: int|
                {
                    &&& 0 <= i < count
                    &&& nodes[i].kind == "import_statement"@ || nodes[i].kind
                        == "import_declaration"@
                    &&& #[trigger] is_child(nodes, i, j)
                    &&& nodes[j].kind == "string"@
                    &&& nodes[j].text is Some
                } implies at.contains((i, j)) by {
                if i < last {
                    let k = choose|k: int| 0 <= k < before.len() && before[k] == (i, j);
                    assert(at[k] == (i, j));
                } else {
                    let k = choose|k: int| 0 <= k < children.len() && children[k] == j;
                    assert(at[before.len() + k] == (i, j));
                }
            }
            at
        } else {
            assert(imports =~= earlier);
            before
        }
    }
}

/// Every imported module is found: where a string in an import is a module between two quotes,
/// that module is among the imports of the file.
pub proof fn law_every_import_is_found(
    nodes: Seq<SyntaxNodeView>,
    file_path: Seq<char>,
    i: int,
    j: int,
    quote: char,
    module: Seq<char>,
)
    requires
        is_child(nodes, i, j),
        nodes[i].kind == "import_statement"@ || nodes[i].kind == "import_declaration"@,
        nodes[j].kind == "string"@,
        nodes[j].text == Some(seq![quote] + module + seq![quote]),
        quote == '"' || quote == '\'',
        !module.contains('"'),
        !module.contains('\''),
    ensures
        found_in(nodes, file_path, nodes.len() as int).imports.contains(module),
{
    let at = law_imports_are_the_imported_modules(nodes, file_path, nodes.len() as int);
    let imports = found_in(nodes, file_path, nodes.len() as int).imports;
    let k = choose|k: int| 0 <= k < at.len() && at[k] == (i, j);
    let text = seq![quote] + module + seq![quote];
    assert(names_module(text, imports[k]));
    let inner = choose|inner: Seq<char>| #[trigger]
        text::is_stripped(text, inner, '"') && text::is_stripped(inner, imports[k], '\'');
    if quote == '"' {
        lemma_stripped_quotes(module, '"', inner);
        lemma_stripped_plain(module, '\'', imports[k]);
    } else {
        assert(!text.contains('"')) by {
            if text.contains('"') {
                let m = choose|m: int| 0 <= m < text.len() && text[m] == '"';
                assert(0 < m < text.len() - 1);
                assert(module[m - 1] == '"');
            }
        }
        lemma_stripped_plain(text, '"', inner);
        lemma_stripped_quotes(module, '\'', imports[k]);
    }
}

/// What is left of a text without the unwanted character is the text.
proof fn lemma_stripped_plain(text: Seq<char>, unwanted: char, core: Seq<char>)
    requires
        !text.contains(unwanted),
        text::is_stripped(text, core, unwanted),
    ensures
        core == text,
{
    let (start, end) = choose|start: int, end: int|
        {
            &&& 0 <= start <= end <= text.len()
            &&& core == #[trigger] text.subrange(start, end)
            &&& forall|i: int| 0 <= i < start ==> text[i] == unwanted
            &&& forall|i: int| end <= i < text.len() ==> text[i] == unwanted
            &&& core.len() > 0 ==> core.first() != unwanted && core.last() != unwanted
        };
    if start > 0 {
        assert(text.contains(text[0]));
    }
    if end < text.len() {
        assert(text.contains(text[text.len() - 1]));
    }
    assert(text.subrange(start, end) =~= text);
}

/// What is left of a text between two unwanted characters is the text.
proof fn lemma_stripped_quotes(text: Seq<char>, unwanted: char, core: Seq<char>)
    requires
        !text.contains(unwanted),
        text::is_stripped(seq![unwanted] + text + seq![unwanted], core, unwanted),
    ensures
        core == text,
{
    let whole = seq![unwanted] + text + seq![unwanted];
    let (start, end) = choose|start: int, end: int|
        {
            &&& 0 <= start <= end <= whole.len()
            &&& core == #[trigger] whole.subrange(start, end)
            &&& forall|i: int| 0 <= i < start ==> whole[i] == unwanted
            &&& forall|i: int| end <= i < whole.len() ==> whole[i] == unwanted
            &&& core.len() > 0 ==> core.first() != unwanted && core.last() != unwanted
        };
    assert forall|i: int| 0 < i <= text.len() implies whole[i] != unwanted by {
        assert(whole[i] == text[i - 1]);
        assert(text.contains(text[i - 1]));
    }
    if text.len() == 0 {
        if core.len() > 0 {
            assert(core.first() == whole[start]);
        }
        assert(core =~= text);
    } else {
        if start > 1 {
            assert(whole[1] == unwanted);
        }
        if end < whole.len() - 1 {
            assert(whole[text.len() as int] == unwanted);
        }
        assert(core.len() > 0);
        assert(core.first() == whole[start]);
        assert(core.last() == whole[end - 1]);
        assert(whole[0] == unwanted && whole[whole.len() - 1] == unwanted);
        assert(start == 1 && end == whole.len() - 1);
        assert(core =~= text);
    }
}

/// The content of an outcome and of a tree is what they hold.
pub proof fn law_content_of_an_outcome(
    result: FileParseResult,
    error: ParseError,
    nodes: Vec<SyntaxNode>,
)
    ensures
        outcome_view(Ok(result)) == Ok::<FileParseResultView, ParseError>(result@),
        outcome_view(Err(error)) == Err::<FileParseResultView, ParseError>(error),
        tree_view(Some(nodes)) == Some(syntax::node_views(nodes@)),
        tree_view(None) is None,
{
}

} // verus!
