//! Indexing a workspace: which files are read, and what becomes of what is found in them.

use vstd::prelude::*;

use crate::call_graph;
use crate::call_graph::CallGraph;
use crate::graph::CallGraphEngine;
use crate::parser;
use crate::store;
use crate::store::ChunkRowView;
use crate::text;
use crate::types;
use crate::types::{FileParseResult, FileParseResultView, ParsedSymbol, ParsedSymbolView};

verus! {

/// Whether a file with an extension is indexed.
pub open spec fn is_indexed(extension: Option<Seq<char>>) -> bool {
    match extension {
        Some(extension) => {
            ||| extension == "js"@
            ||| extension == "ts"@
            ||| extension == "jsx"@
            ||| extension == "tsx"@
        },
        None => false,
    }
}

/// Whether a file is indexed, by the extension of its path, if it has one.
pub fn is_source_file(extension: Option<&str>) -> (indexed: bool)
    ensures
        indexed == is_indexed(
            match extension {
                Some(extension) => Some(extension@),
                None => None,
            },
        ),
{
    match extension {
        Some(extension) => text::same_text(extension, "js") || text::same_text(extension, "ts")
            || text::same_text(extension, "jsx") || text::same_text(extension, "tsx"),
        None => false,
    }
}

/// The contents of the results of parsing some files.
pub open spec fn file_views(files: Seq<FileParseResult>) -> Seq<FileParseResultView> {
    files.map_values(|file: FileParseResult| file@)
}

/// The call graph of some files, before the calls are linked.
pub open spec fn graph_of(files: Seq<FileParseResultView>) -> CallGraph
    decreases files.len(),
{
    if files.len() == 0 {
        CallGraph::empty()
    } else {
        graph_of(files.drop_last()).add_parsed(files.last())
    }
}

/// The symbols of some files, file by file.
pub open spec fn symbols_of(files: Seq<FileParseResultView>) -> Seq<ParsedSymbolView>
    decreases files.len(),
{
    if files.len() == 0 {
        Seq::empty()
    } else {
        symbols_of(files.drop_last()) + files.last().symbols
    }
}

/// Appends copies of symbols.
fn add_copies(symbols: &mut Vec<ParsedSymbol>, more: &Vec<ParsedSymbol>)
    ensures
        types::symbol_views(final(symbols)@) == types::symbol_views(old(symbols)@)
            + types::symbol_views(more@),
{
    let ghost start = types::symbol_views(symbols@);
    let ghost views = types::symbol_views(more@);
    let mut i: usize = 0;
    assert(types::symbol_views(symbols@) =~= start + views.take(0));
    while i < more.len()
        invariant
            0 <= i <= more.len(),
            views == types::symbol_views(more@),
            types::symbol_views(symbols@) == start + views.take(i as int),
        decreases more.len() - i,
    {
        let copy = more[i].clone();
        let ghost before = symbols@;
        symbols.push(copy);
        assert(types::symbol_views(symbols@) =~= types::symbol_views(before).push(copy@));
        assert(types::symbol_views(symbols@) =~= start + views.take(i as int + 1));
        i += 1;
    }
    assert(views.take(i as int) =~= views);
}

/// Builds the call graph of some files, with the calls linked, and collects their symbols for
/// the store. Returns `None` where the underlying graph cannot hold so much.
pub fn build_index(files: &[FileParseResult]) -> (index: Option<
    (CallGraphEngine, Vec<ParsedSymbol>),
>)
    ensures
        index is Some <==> graph_of(file_views(files@)).resolve().fits(),
        index matches Some((graph, symbols)) ==> {
            &&& graph.wf()
            &&& graph@ == graph_of(file_views(files@)).resolve()
            &&& types::symbol_views(symbols@) == symbols_of(file_views(files@))
        },
{
    let ghost views = file_views(files@);
    let mut graph = CallGraphEngine::new();
    let mut symbols: Vec<ParsedSymbol> = Vec::new();
    let mut i: usize = 0;
    assert(types::symbol_views(symbols@) =~= symbols_of(views.take(0)));
    while i < files.len()
        invariant
            0 <= i <= files.len(),
            views == file_views(files@),
            graph.wf(),
            graph@ == graph_of(views.take(i as int)),
            types::symbol_views(symbols@) == symbols_of(views.take(i as int)),
        decreases files.len() - i,
    {
        let file = &files[i];
        assert(views.take(i as int + 1).drop_last() =~= views.take(i as int));
        assert(views.take(i as int + 1).last() == file@);
        let path = file.file_path.as_str();
        let found = file.symbols.as_slice();
        let calls = file.calls.as_slice();
        let imports = file.imports.as_slice();
        if !graph.has_room_for(path, found, calls, imports) {
            proof {
                lemma_graph_of_grows(views, i as int + 1);
            }
            return None;
        }
        graph.add_file_data(path, found, calls, imports);
        add_copies(&mut symbols, &file.symbols);
        i += 1;
    }
    assert(views.take(i as int) =~= views);
    if !graph.has_room_to_resolve() {
        return None;
    }
    graph.resolve_calls();
    Some((graph, symbols))
}

/// A graph that fits did so before the last files were added and the calls were linked.
proof fn lemma_graph_of_grows(files: Seq<FileParseResultView>, count: int)
    requires
        0 <= count <= files.len(),
        !graph_of(files.take(count)).fits(),
    ensures
        !graph_of(files).resolve().fits(),
    decreases files.len() - count,
{
    if count == files.len() {
        assert(files.take(count) =~= files);
    } else {
        let file = files[count];
        assert(files.take(count + 1).drop_last() =~= files.take(count));
        if graph_of(files.take(count + 1)).fits() {
            call_graph::lemma_fits_before_add_file(
                graph_of(files.take(count)),
                file.file_path,
                call_graph::names_of(file.symbols),
                file.calls,
                file.imports,
            );
        }
        lemma_graph_of_grows(files, count + 1);
    }
}

// Laws of indexing

/// There is a grammar for every file that is indexed: one of which the path ends in a dot and an
/// extension that is indexed.
pub proof fn law_indexed_files_have_a_grammar(path: Seq<char>, extension: Seq<char>)
    requires
        is_indexed(Some(extension)),
        (seq!['.'] + extension).is_suffix_of(path),
    ensures
        parser::grammar_of(path) is Some,
{
    reveal_strlit("js");
    reveal_strlit("ts");
    reveal_strlit("jsx");
    reveal_strlit("tsx");
    reveal_strlit(".js");
    reveal_strlit(".ts");
    reveal_strlit(".jsx");
    reveal_strlit(".tsx");
    assert(seq!['.'] + "js"@ =~= ".js"@);
    assert(seq!['.'] + "ts"@ =~= ".ts"@);
    assert(seq!['.'] + "jsx"@ =~= ".jsx"@);
    assert(seq!['.'] + "tsx"@ =~= ".tsx"@);
}

/// The call graph of some files is valid, before and after the calls are linked.
pub proof fn law_index_is_valid(files: Seq<FileParseResultView>)
    ensures
        graph_of(files).valid(),
        graph_of(files).resolve().valid(),
    decreases files.len(),
{
    if files.len() == 0 {
        call_graph::law_empty(Seq::empty());
    } else {
        let file = files.last();
        law_index_is_valid(files.drop_last());
        call_graph::law_add_file_keeps_valid(
            graph_of(files.drop_last()),
            file.file_path,
            call_graph::names_of(file.symbols),
            file.calls,
            file.imports,
        );
    }
    call_graph::law_resolve_keeps_valid(graph_of(files));
}

/// Indexing no files gives an empty call graph and no symbols.
pub proof fn law_index_of_nothing()
    ensures
        graph_of(Seq::empty()).resolve() == CallGraph::empty(),
        symbols_of(Seq::empty()) == Seq::<ParsedSymbolView>::empty(),
{
    let graph = CallGraph::empty();
    assert(graph.resolve().resolved =~= graph.resolved);
    assert(graph.resolve() =~= graph);
}

/// What is recorded of some files is what was found in them.
proof fn lemma_indexed(files: Seq<FileParseResultView>, file: Seq<char>, name: Seq<char>)
    ensures
        graph_of(files).calls.contains((file, name)) <==> exists|i: int|
            0 <= i < files.len() && calls(#[trigger] files[i], file, name),
        graph_of(files).definitions.contains((file, name)) <==> exists|i: int|
            0 <= i < files.len() && defines(#[trigger] files[i], file, name),
    decreases files.len(),
{
    if files.len() > 0 {
        let rest = files.drop_last();
        let last = files.last();
        let before = graph_of(rest);
        lemma_indexed(rest, file, name);
        assert(forall|i: int| 0 <= i < rest.len() ==> #[trigger] files[i] == rest[i]);
        assert(files[files.len() - 1] == last);
        lemma_mentions_contain(last.file_path, last.calls, file, name);
        lemma_mentions_contain(
            last.file_path,
            call_graph::names_of(last.symbols),
            file,
            name,
        );
        parser::lemma_contains_sum(
            before.calls,
            call_graph::mentions(last.file_path, last.calls),
            (file, name),
        );
        parser::lemma_contains_sum(
            before.definitions,
            call_graph::mentions(last.file_path, call_graph::names_of(last.symbols)),
            (file, name),
        );
    }
}

proof fn lemma_mentions_contain(
    file: Seq<char>,
    items: Seq<Seq<char>>,
    other: Seq<char>,
    item: Seq<char>,
)
    ensures
        call_graph::mentions(file, items).contains((other, item)) <==> file == other
            && items.contains(item),
{
    let all = call_graph::mentions(file, items);
    if all.contains((other, item)) {
        let i = choose|i: int| 0 <= i < all.len() && all[i] == (other, item);
        assert(items[i] == item);
    }
    if file == other && items.contains(item) {
        let i = choose|i: int| 0 <= i < items.len() && items[i] == item;
        assert(all[i] == (other, item));
    }
}

/// The names that are defined, in order, are those of the symbols that go to the store.
proof fn lemma_definitions(files: Seq<FileParseResultView>)
    ensures
        graph_of(files).definitions.len() == symbols_of(files).len(),
        forall|k: int|
            0 <= k < symbols_of(files).len() ==> (#[trigger] graph_of(files).definitions[k]).1
                == symbols_of(files)[k].name,
    decreases files.len(),
{
    if files.len() > 0 {
        lemma_definitions(files.drop_last());
    }
}

/// Whether what was found is of a file, and that file calls a name.
pub open spec fn calls(found: FileParseResultView, file: Seq<char>, name: Seq<char>) -> bool {
    found.file_path == file && found.calls.contains(name)
}

/// Whether what was found is of a file, and that file defines a name.
pub open spec fn defines(found: FileParseResultView, file: Seq<char>, name: Seq<char>) -> bool {
    found.file_path == file && call_graph::names_of(found.symbols).contains(name)
}

/// What goes to the store are the symbols that were found in some file: each of them, and no
/// other.
pub proof fn law_found_symbols_go_to_the_store(
    files: Seq<FileParseResultView>,
    symbol: ParsedSymbolView,
)
    ensures
        symbols_of(files).contains(symbol) <==> exists|i: int|
            0 <= i < files.len() && (#[trigger] files[i]).symbols.contains(symbol),
    decreases files.len(),
{
    if files.len() > 0 {
        let rest = files.drop_last();
        law_found_symbols_go_to_the_store(rest, symbol);
        assert(forall|i: int| 0 <= i < rest.len() ==> #[trigger] files[i] == rest[i]);
        assert(files[files.len() - 1] == files.last());
        parser::lemma_contains_sum(symbols_of(rest), files.last().symbols, symbol);
    }
}

/// The call graph knows a name exactly if a symbol of that name goes to the store. It then knows
/// one file that defines it, and a file is told as the one that does only if it was indexed and
/// defines the name.
pub proof fn law_indexed_names_are_known(
    files: Seq<FileParseResultView>,
    name: Seq<char>,
    file: Seq<char>,
)
    ensures
        ({
            let context = graph_of(files).resolve().context(name);
            &&& context.defined_in.len() == 1 <==> exists|k: int|
                0 <= k < symbols_of(files).len() && (#[trigger] symbols_of(files)[k]).name == name
            &&& context.defined_in.len() <= 1
            &&& context.defined_in.contains(file) ==> exists|i: int|
                0 <= i < files.len() && defines(#[trigger] files[i], file, name)
        }),
{
    let graph = graph_of(files).resolve();
    let all = graph.definitions;
    lemma_definitions(files);
    lemma_indexed(files, file, name);
    law_index_is_valid(files);
    call_graph::law_context_is_sound(graph, name, file);
    call_graph::lemma_last_mention(all, name);
    if graph.defines(name) {
        let last = call_graph::last_mention(all, name);
        assert(graph_of(files).definitions[last].1 == symbols_of(files)[last].name);
    }
    if exists|k: int|
        0 <= k < symbols_of(files).len() && (#[trigger] symbols_of(files)[k]).name == name {
        let k = choose|k: int|
            0 <= k < symbols_of(files).len() && (#[trigger] symbols_of(files)[k]).name == name;
        assert(graph_of(files).definitions[k].1 == name);
        call_graph::lemma_last_mention_found(all, name, k);
    }
}

/// The call graph connects call sites to definitions: a file is among the callers of a name
/// exactly if some file defines the name and that file was indexed and calls it, in whatever
/// order the files were indexed. Where no file defines a name, nothing is known of it.
pub proof fn law_indexed_calls_are_linked(
    files: Seq<FileParseResultView>,
    name: Seq<char>,
    file: Seq<char>,
)
    ensures
        ({
            let context = graph_of(files).resolve().context(name);
            &&& context.called_by.contains(file) <==> graph_of(files).defines(name)
                && exists|i: int|
                0 <= i < files.len() && calls(#[trigger] files[i], file, name)
            &&& !graph_of(files).defines(name) ==> context.defined_in.len() == 0
                && context.called_by.len() == 0
        }),
{
    lemma_indexed(files, file, name);
    law_index_is_valid(files);
    call_graph::law_resolve_links_callers(graph_of(files), name);
    if graph_of(files).defines(name) {
        call_graph::law_resolved_callers_are_the_callers(graph_of(files), name, file);
    }
}

/// Before the calls are linked no caller is listed.
proof fn lemma_nothing_linked(files: Seq<FileParseResultView>, name: Seq<char>)
    ensures
        graph_of(files).context(name).called_by.len() == 0,
    decreases files.len(),
{
    law_index_is_valid(files);
    if files.len() > 0 {
        let rest = files.drop_last();
        let last = files.last();
        let names = call_graph::names_of(last.symbols);
        lemma_nothing_linked(rest, name);
        law_index_is_valid(rest);
        if names.contains(name) {
            call_graph::law_last_definition_wins(
                graph_of(rest),
                last.file_path,
                names,
                last.calls,
                last.imports,
                name,
            );
        } else {
            call_graph::law_add_file_keeps_other_contexts(
                graph_of(rest),
                last.file_path,
                names,
                last.calls,
                last.imports,
                name,
            );
        }
    }
}

/// The callers of a defined name come in the order in which the files were indexed, each file
/// once for each of its calls.
pub proof fn law_callers_come_in_order(files: Seq<FileParseResultView>, name: Seq<char>)
    requires
        graph_of(files).defines(name),
    ensures
        graph_of(files).resolve().context(name).called_by == graph_of(files).callers(name),
{
    law_index_is_valid(files);
    lemma_nothing_linked(files, name);
    call_graph::law_each_call_is_linked_once(graph_of(files), name);
}

/// Every symbol of every parsed file can be looked up: where the table holds the rows for the
/// symbols of some files, each told of its source, the results for the rows with a name are the
/// details of all the symbols with that name in all the files, with their files, types, lines
/// and code, each of them and no other, file by file.
pub proof fn law_lookup_gives_back_the_symbols_of_all_files(
    files: Seq<FileParseResultView>,
    sources: Seq<Seq<char>>,
    name: Seq<char>,
)
    requires
        files.len() == sources.len(),
        forall|i: int|
            0 <= i < files.len() ==> parser::is_told_of(
                #[trigger] files[i],
                files[i].file_path,
                sources[i],
            ),
    ensures
        store::rows_named(store::rows_of(symbols_of(files)), name).map_values(
            |row: ChunkRowView| store::result_of(row),
        ) == symbols_of(files).filter(
            |symbol: ParsedSymbolView| symbol.name == name,
        ).map_values(|symbol: ParsedSymbolView| store::details_of(symbol)),
{
    let all = symbols_of(files);
    assert forall|k: int| 0 <= k < all.len() implies (#[trigger] all[k]).start_line <= u32::MAX
        && all[k].end_line <= u32::MAX by {
        law_found_symbols_go_to_the_store(files, all[k]);
        let i = choose|i: int|
            0 <= i < files.len() && (#[trigger] files[i]).symbols.contains(all[k]);
        let j = choose|j: int|
            0 <= j < files[i].symbols.len() && files[i].symbols[j] == all[k];
        assert(parser::is_symbol_of(files[i].symbols[j], files[i].file_path, sources[i]));
    }
    store::law_lookup_gives_back_the_symbols(all, name);
}

/// A file is indexed exactly if its extension is `js`, `ts`, `jsx` or `tsx`.
pub proof fn law_indexed_extensions(extension: Seq<char>)
    ensures
        is_indexed(Some(extension)) <==> extension == "js"@ || extension == "ts"@ || extension
            == "jsx"@ || extension == "tsx"@,
        !is_indexed(None),
{
}

/// Indexing more files adds their symbols behind those of the files before, and records what was
/// found in each of them, one after the other.
pub proof fn law_indexing_more_files(
    files: Seq<FileParseResultView>,
    more: Seq<FileParseResultView>,
    file: FileParseResultView,
)
    ensures
        symbols_of(files + more) == symbols_of(files) + symbols_of(more),
        symbols_of(seq![file]) == file.symbols,
        symbols_of(Seq::empty()) == Seq::<ParsedSymbolView>::empty(),
        graph_of(files.push(file)) == graph_of(files).add_parsed(file),
        graph_of(Seq::empty()) == CallGraph::empty(),
    decreases more.len(),
{
    reveal_with_fuel(symbols_of, 2);
    assert(seq![file].drop_last() =~= Seq::empty());
    assert(symbols_of(seq![file]) =~= file.symbols);
    assert(files.push(file).drop_last() =~= files);
    if more.len() == 0 {
        assert(files + more =~= files);
        assert(symbols_of(files + more) =~= symbols_of(files) + symbols_of(more));
    } else {
        assert((files + more).drop_last() =~= files + more.drop_last());
        law_indexing_more_files(files, more.drop_last(), file);
        assert(symbols_of(files + more) =~= symbols_of(files) + symbols_of(more));
    }
}

/// Where several files define a name, it is told as defined in the one that was indexed last.
pub proof fn law_last_indexed_definition_wins(
    files: Seq<FileParseResultView>,
    name: Seq<char>,
    i: int,
)
    requires
        0 <= i < files.len(),
        exists|k: int|
            0 <= k < files[i].symbols.len() && (#[trigger] files[i].symbols[k]).name == name,
        forall|j: int, k: int|
            i < j < files.len() && 0 <= k < files[j].symbols.len() ==> (
            #[trigger] files[j].symbols[k]).name != name,
    ensures
        graph_of(files).resolve().context(name).defined_in == seq![files[i].file_path],
    decreases files.len(),
{
    let rest = files.drop_last();
    let last = files.last();
    let names = call_graph::names_of(last.symbols);
    law_index_is_valid(rest);
    law_index_is_valid(files);
    call_graph::law_resolve_links_callers(graph_of(files), name);
    if i == files.len() - 1 {
        let k = choose|k: int|
            0 <= k < files[i].symbols.len() && (#[trigger] files[i].symbols[k]).name == name;
        assert(names[k] == name);
        call_graph::law_last_definition_wins(
            graph_of(rest),
            last.file_path,
            names,
            last.calls,
            last.imports,
            name,
        );
    } else {
        assert(rest[i] == files[i]);
        assert forall|j: int, k: int|
            i < j < rest.len() && 0 <= k < rest[j].symbols.len() implies (
        #[trigger] rest[j].symbols[k]).name != name by {
            assert(files[j].symbols[k].name != name);
        }
        law_last_indexed_definition_wins(rest, name, i);
        call_graph::law_resolve_links_callers(graph_of(rest), name);
        assert(!names.contains(name)) by {
            if names.contains(name) {
                let k = choose|k: int| 0 <= k < names.len() && names[k] == name;
                assert(files[files.len() - 1].symbols[k].name == name);
            }
        }
        call_graph::law_add_file_keeps_other_contexts(
            graph_of(rest),
            last.file_path,
            names,
            last.calls,
            last.imports,
            name,
        );
    }
}

/// An index is built of every workspace in which the files, symbols, imports and twice the calls
/// are at most `u32::MAX` together.
pub proof fn law_index_of_ordinary_size_is_built(files: Seq<FileParseResultView>)
    requires
        files.len() + symbols_of(files).len() + 2 * graph_of(files).calls.len() + graph_of(
            files,
        ).imports.len() <= u32::MAX,
    ensures
        graph_of(files).resolve().fits(),
{
    law_index_is_valid(files);
    lemma_definitions(files);
    lemma_files_and_links(files);
    call_graph::law_what_fits(graph_of(files));
}

proof fn lemma_files_and_links(files: Seq<FileParseResultView>)
    ensures
        graph_of(files).files.len() <= files.len(),
        graph_of(files).links == 0,
    decreases files.len(),
{
    if files.len() > 0 {
        lemma_files_and_links(files.drop_last());
    }
}

/// The content of files that were parsed is what they hold.
pub proof fn law_content_of_files(files: Seq<FileParseResult>, i: int)
    requires
        0 <= i < files.len(),
    ensures
        file_views(files).len() == files.len(),
        file_views(files)[i].file_path == files[i].file_path@,
        file_views(files)[i].symbols == types::symbol_views(files[i].symbols@),
        file_views(files)[i].calls == types::string_views(files[i].calls@),
        file_views(files)[i].imports == types::string_views(files[i].imports@),
{
}

} // verus!
