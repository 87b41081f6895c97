//! What a call graph is, as a mathematical value: the definitions, calls and imports that were
//! recorded, in order, and the callers that were linked to each symbol. The laws of the call
//! graph are stated and proved here.

use vstd::prelude::*;

use crate::types::{FileParseResultView, GraphContextView, ParsedSymbolView};

verus! {

/// A file and a name: of a symbol that the file defines, of a callee that it calls, or of a
/// module that it imports.
pub type Mention = (Seq<char>, Seq<char>);

/// The most nodes, and the most edges, that the underlying graph can hold.
pub open spec fn capacity() -> nat {
    u32::MAX as nat
}

/// A call graph.
#[verifier::ext_equal]
pub struct CallGraph {
    /// The files, in the order in which they first appeared.
    pub files: Seq<Seq<char>>,
    /// Every definition, in the order in which they were recorded.
    pub definitions: Seq<Mention>,
    /// Every call, in the order in which they were recorded.
    pub calls: Seq<Mention>,
    /// Every import, in the order in which they were recorded.
    pub imports: Seq<Mention>,
    /// For each defined name, the files that were linked to its last definition as callers.
    pub resolved: Map<Seq<char>, Seq<Seq<char>>>,
    /// How many links from callers to definitions were ever made.
    pub links: nat,
}

/// `items`, each paired with the file it was found in.
pub open spec fn mentions(file: Seq<char>, items: Seq<Seq<char>>) -> Seq<Mention> {
    items.map_values(|item: Seq<char>| (file, item))
}

/// The names of some symbols.
pub open spec fn names_of(symbols: Seq<ParsedSymbolView>) -> Seq<Seq<char>> {
    symbols.map_values(|symbol: ParsedSymbolView| symbol.name)
}

/// The position of the last mention of `name`, or -1 if there is none.
pub open spec fn last_mention(all: Seq<Mention>, name: Seq<char>) -> int
    decreases all.len(),
{
    if all.len() == 0 {
        -1
    } else if all.last().1 == name {
        all.len() - 1
    } else {
        last_mention(all.drop_last(), name)
    }
}

/// The files that mention `name`, once for each mention, in order.
pub open spec fn mentioning(all: Seq<Mention>, name: Seq<char>) -> Seq<Seq<char>>
    decreases all.len(),
{
    if all.len() == 0 {
        Seq::empty()
    } else if all.last().1 == name {
        mentioning(all.drop_last(), name).push(all.last().0)
    } else {
        mentioning(all.drop_last(), name)
    }
}

/// The names that are mentioned, each once, in the order of their first mention.
pub open spec fn distinct_names(all: Seq<Mention>) -> Seq<Seq<char>>
    decreases all.len(),
{
    if all.len() == 0 {
        Seq::empty()
    } else {
        let before = distinct_names(all.drop_last());
        if before.contains(all.last().1) {
            before
        } else {
            before.push(all.last().1)
        }
    }
}

impl CallGraph {
    /// The call graph of no files.
    pub open spec fn empty() -> CallGraph {
        CallGraph {
            files: Seq::empty(),
            definitions: Seq::empty(),
            calls: Seq::empty(),
            imports: Seq::empty(),
            resolved: Map::empty(),
            links: 0,
        }
    }

    /// Whether some file defines `name`.
    pub open spec fn defines(self, name: Seq<char>) -> bool {
        last_mention(self.definitions, name) >= 0
    }

    /// The files that call `name`, once for each call, in order.
    pub open spec fn callers(self, name: Seq<char>) -> Seq<Seq<char>> {
        mentioning(self.calls, name)
    }

    /// The files of those calls of `name` that are not linked to its last definition yet: of all
    /// but the first calls, as many as are linked.
    pub open spec fn unlinked(self, name: Seq<char>) -> Seq<Seq<char>> {
        self.callers(name).skip(self.resolved[name].len() as int)
    }

    /// How many calls are not linked yet, of those listed names that are defined and in `names`.
    pub open spec fn unlinked_count(self, listed: Seq<Seq<char>>, names: Set<Seq<char>>) -> nat
        decreases listed.len(),
    {
        if listed.len() == 0 {
            0
        } else {
            let before = self.unlinked_count(listed.drop_last(), names);
            if names.contains(listed.last()) && self.defines(listed.last()) {
                before + self.unlinked(listed.last()).len()
            } else {
                before
            }
        }
    }

    /// Where `name` is defined and who calls it: the file of its last definition, and the files
    /// that were linked to that definition. Both are empty for a name that nothing defines.
    pub open spec fn context(self, name: Seq<char>) -> GraphContextView {
        if self.defines(name) {
            GraphContextView {
                symbol: name,
                defined_in: seq![self.definitions[last_mention(self.definitions, name)].0],
                called_by: self.resolved[name],
            }
        } else {
            GraphContextView { symbol: name, defined_in: Seq::empty(), called_by: Seq::empty() }
        }
    }

    /// The graph once a file is known.
    pub open spec fn with_file(self, file: Seq<char>) -> CallGraph {
        CallGraph {
            files: if self.files.contains(file) {
                self.files
            } else {
                self.files.push(file)
            },
            ..self
        }
    }

    /// The graph once the definitions, calls and imports of a file are recorded. A name that the
    /// file defines starts again without callers.
    pub open spec fn add_file(
        self,
        file: Seq<char>,
        names: Seq<Seq<char>>,
        calls: Seq<Seq<char>>,
        imports: Seq<Seq<char>>,
    ) -> CallGraph {
        CallGraph {
            files: self.with_file(file).files,
            definitions: self.definitions + mentions(file, names),
            calls: self.calls + mentions(file, calls),
            imports: self.imports + mentions(file, imports),
            resolved: self.resolved.union_prefer_right(
                Map::new(
                    |name: Seq<char>| names.contains(name),
                    |name: Seq<char>| Seq::<Seq<char>>::empty(),
                ),
            ),
            links: self.links,
        }
    }

    /// The graph once what was found in a file is recorded.
    pub open spec fn add_parsed(self, parsed: FileParseResultView) -> CallGraph {
        self.add_file(parsed.file_path, names_of(parsed.symbols), parsed.calls, parsed.imports)
    }

    /// The graph once those calls of the names in `names` that are not linked yet are linked to
    /// the definitions of those names.
    pub open spec fn resolve_only(self, names: Set<Seq<char>>) -> CallGraph {
        CallGraph {
            resolved: Map::new(
                |name: Seq<char>| self.resolved.contains_key(name),
                |name: Seq<char>|
                    if names.contains(name) {
                        self.unlinked(name) + self.resolved[name]
                    } else {
                        self.resolved[name]
                    },
            ),
            links: self.links + self.unlinked_count(distinct_names(self.calls), names),
            ..self
        }
    }

    /// The graph once every call of a defined name is linked to the last definition of that
    /// name: the callers that were not linked yet, in order, come to stand before those that
    /// were.
    pub open spec fn resolve(self) -> CallGraph {
        self.resolve_only(Set::full())
    }

    /// The number of nodes: one for each file, definition and import, and one for each callee
    /// name.
    pub open spec fn node_count(self) -> nat {
        self.files.len() + self.definitions.len() + distinct_names(self.calls).len()
            + self.imports.len()
    }

    /// The number of edges: one for each definition, call and import, and one for each link.
    pub open spec fn edge_count(self) -> nat {
        self.definitions.len() + self.calls.len() + self.imports.len() + self.links
    }

    /// Whether the underlying graph can hold all this.
    pub open spec fn fits(self) -> bool {
        &&& self.node_count() <= capacity()
        &&& self.edge_count() <= capacity()
    }

    /// What holds of every call graph that is built by `add_file` and `resolve` from the empty
    /// one.
    pub open spec fn valid(self) -> bool {
        // No file is listed twice, and every mention is by a listed file.
        &&& self.files.no_duplicates()
        &&& forall|i: int|
            0 <= i < self.definitions.len() ==> self.files.contains(
                (#[trigger] self.definitions[i]).0,
            )
        &&& forall|i: int|
            0 <= i < self.calls.len() ==> self.files.contains((#[trigger] self.calls[i]).0)
        &&& forall|i: int|
            0 <= i < self.imports.len() ==> self.files.contains(
                (#[trigger] self.imports[i]).0,
            )
        // Callers are kept for the defined names: those of the first calls of the name, each
        // once for each of these calls.
        &&& forall|name: Seq<char>| #[trigger]
            self.resolved.contains_key(name) <==> self.defines(name)
        &&& forall|name: Seq<char>| #[trigger]
            self.resolved.contains_key(name) ==> self.links_first_calls(name)
    }

    /// Whether the callers that are linked to a name are those of its first calls, each once for
    /// each of these calls.
    pub open spec fn links_first_calls(self, name: Seq<char>) -> bool {
        let count = self.resolved[name].len();
        &&& count <= self.callers(name).len()
        &&& self.resolved[name].to_multiset() == self.callers(name).take(
            count as int,
        ).to_multiset()
    }
}

// Facts about mentions

pub(crate) proof fn lemma_last_mention(all: Seq<Mention>, name: Seq<char>)
    ensures
        -1 <= last_mention(all, name) < all.len(),
        last_mention(all, name) >= 0 ==> all[last_mention(all, name)].1 == name,
        forall|i: int| last_mention(all, name) < i < all.len() ==> (#[trigger] all[i]).1 != name,
    decreases all.len(),
{
    if all.len() > 0 && all.last().1 != name {
        lemma_last_mention(all.drop_last(), name);
        assert forall|i: int| last_mention(all, name) < i < all.len() implies (
        #[trigger] all[i]).1 != name by {
            if i < all.len() - 1 {
                assert(all[i] == all.drop_last()[i]);
            }
        }
    }
}

pub(crate) proof fn lemma_last_mention_push(all: Seq<Mention>, new: Mention, name: Seq<char>)
    ensures
        last_mention(all.push(new), name) == if new.1 == name {
            all.len() as int
        } else {
            last_mention(all, name)
        },
{
    assert(all.push(new).drop_last() =~= all);
}

pub(crate) proof fn lemma_last_mention_add(all: Seq<Mention>, more: Seq<Mention>, name: Seq<char>)
    ensures
        last_mention(all + more, name) == if last_mention(more, name) >= 0 {
            all.len() + last_mention(more, name)
        } else {
            last_mention(all, name)
        },
    decreases more.len(),
{
    if more.len() == 0 {
        assert(all + more =~= all);
    } else {
        assert((all + more).drop_last() =~= all + more.drop_last());
        lemma_last_mention_add(all, more.drop_last(), name);
    }
}

pub(crate) proof fn lemma_last_mention_found(all: Seq<Mention>, name: Seq<char>, i: int)
    requires
        0 <= i < all.len(),
        all[i].1 == name,
    ensures
        last_mention(all, name) >= i,
{
    lemma_last_mention(all, name);
}

pub(crate) proof fn lemma_mentioning_push(all: Seq<Mention>, new: Mention, name: Seq<char>)
    ensures
        mentioning(all.push(new), name) == if new.1 == name {
            mentioning(all, name).push(new.0)
        } else {
            mentioning(all, name)
        },
{
    assert(all.push(new).drop_last() =~= all);
}

pub(crate) proof fn lemma_mentioning_add(all: Seq<Mention>, more: Seq<Mention>, name: Seq<char>)
    ensures
        mentioning(all + more, name) == mentioning(all, name) + mentioning(more, name),
    decreases more.len(),
{
    if more.len() == 0 {
        assert(all + more =~= all);
        assert(mentioning(all, name) + mentioning(more, name) =~= mentioning(all, name));
    } else {
        assert((all + more).drop_last() =~= all + more.drop_last());
        lemma_mentioning_add(all, more.drop_last(), name);
        assert(mentioning(all + more, name) =~= mentioning(all, name) + mentioning(more, name));
    }
}

pub(crate) proof fn lemma_mentioning_contains(
    all: Seq<Mention>,
    name: Seq<char>,
    file: Seq<char>,
)
    ensures
        mentioning(all, name).contains(file) <==> all.contains((file, name)),
    decreases all.len(),
{
    if all.len() > 0 {
        let before = all.drop_last();
        lemma_mentioning_contains(before, name, file);
        assert(all =~= before.push(all.last()));
        if before.contains((file, name)) {
            let i = choose|i: int| 0 <= i < before.len() && before[i] == (file, name);
            assert(all[i] == (file, name));
        }
        if all.last().1 == name {
            let found = mentioning(before, name);
            assert(mentioning(all, name) == found.push(all.last().0));
            assert(mentioning(all, name)[found.len() as int] == all.last().0);
            if found.contains(file) {
                let i = choose|i: int| 0 <= i < found.len() && found[i] == file;
                assert(mentioning(all, name)[i] == file);
            }
        }
        if all.last() == (file, name) {
            assert(all[all.len() - 1] == (file, name));
        }
    }
}

pub(crate) proof fn lemma_distinct_names(all: Seq<Mention>)
    ensures
        distinct_names(all).no_duplicates(),
        distinct_names(all).len() <= all.len(),
        forall|i: int|
            0 <= i < all.len() ==> distinct_names(all).contains((#[trigger] all[i]).1),
        forall|name: Seq<char>| #[trigger]
            distinct_names(all).contains(name) ==> last_mention(all, name) >= 0,
    decreases all.len(),
{
    if all.len() > 0 {
        let rest = all.drop_last();
        let before = distinct_names(rest);
        lemma_distinct_names(rest);
        let new = all.last().1;
        assert(all =~= rest.push(all.last()));
        assert forall|i: int| 0 <= i < all.len() implies distinct_names(all).contains(
            (#[trigger] all[i]).1,
        ) by {
            if i < rest.len() {
                assert(rest[i] == all[i]);
                let j = choose|j: int| 0 <= j < before.len() && before[j] == all[i].1;
                assert(distinct_names(all)[j] == all[i].1);
            } else if !before.contains(new) {
                assert(distinct_names(all)[before.len() as int] == new);
            }
        }
        assert forall|name: Seq<char>| #[trigger]
            distinct_names(all).contains(name) implies last_mention(all, name) >= 0 by {
            if name != new {
                let j = choose|j: int|
                    0 <= j < distinct_names(all).len() && distinct_names(all)[j] == name;
                assert(before[j] == name);
                assert(before.contains(name));
            }
        }
    }
}

pub(crate) proof fn lemma_distinct_names_push(all: Seq<Mention>, new: Mention)
    ensures
        distinct_names(all.push(new)) == if distinct_names(all).contains(new.1) {
            distinct_names(all)
        } else {
            distinct_names(all).push(new.1)
        },
{
    assert(all.push(new).drop_last() =~= all);
}

pub(crate) proof fn lemma_distinct_names_grow(all: Seq<Mention>, more: Seq<Mention>)
    ensures
        distinct_names(all).len() <= distinct_names(all + more).len(),
    decreases more.len(),
{
    if more.len() == 0 {
        assert(all + more =~= all);
    } else {
        assert((all + more).drop_last() =~= all + more.drop_last());
        lemma_distinct_names_grow(all, more.drop_last());
    }
}

pub(crate) proof fn lemma_mentioning_bound(all: Seq<Mention>, name: Seq<char>)
    ensures
        mentioning(all, name).len() <= all.len(),
    decreases all.len(),
{
    if all.len() > 0 {
        lemma_mentioning_bound(all.drop_last(), name);
    }
}

// Facts about links

/// Every caller that is linked to a name calls it.
pub(crate) proof fn lemma_linked_caller(graph: CallGraph, name: Seq<char>, file: Seq<char>)
    requires
        graph.valid(),
        graph.resolved.contains_key(name),
        graph.resolved[name].contains(file),
    ensures
        graph.callers(name).contains(file),
{
    let linked = graph.resolved[name];
    let first = graph.callers(name).take(linked.len() as int);
    assert(graph.links_first_calls(name));
    linked.to_multiset_ensures();
    first.to_multiset_ensures();
    assert(linked.to_multiset().count(file) > 0);
    assert(first.to_multiset().count(file) > 0);
    let i = choose|i: int| 0 <= i < first.len() && first[i] == file;
    assert(graph.callers(name)[i] == file);
}

/// Linking the calls that were not linked yet leaves none, and links each call once.
proof fn lemma_link_rest(graph: CallGraph, name: Seq<char>)
    requires
        graph.links_first_calls(name),
    ensures
        (graph.unlinked(name) + graph.resolved[name]).len() == graph.callers(name).len(),
        (graph.unlinked(name) + graph.resolved[name]).to_multiset() == graph.callers(
            name,
        ).to_multiset(),
{
    let callers = graph.callers(name);
    let linked = graph.resolved[name];
    let first = callers.take(linked.len() as int);
    let rest = graph.unlinked(name);
    vstd::seq_lib::lemma_multiset_commutative(rest, linked);
    vstd::seq_lib::lemma_multiset_commutative(first, rest);
    assert(first + rest =~= callers);
    assert((rest + linked).to_multiset() =~= callers.to_multiset());
}

pub(crate) proof fn lemma_unlinked_none(graph: CallGraph, listed: Seq<Seq<char>>)
    ensures
        graph.unlinked_count(listed, Set::empty()) == 0,
    decreases listed.len(),
{
    if listed.len() > 0 {
        lemma_unlinked_none(graph, listed.drop_last());
    }
}

pub(crate) proof fn lemma_unlinked_insert(
    graph: CallGraph,
    listed: Seq<Seq<char>>,
    names: Set<Seq<char>>,
    name: Seq<char>,
)
    requires
        !names.contains(name),
        listed.no_duplicates(),
    ensures
        graph.unlinked_count(listed, names.insert(name)) == graph.unlinked_count(listed, names)
            + if listed.contains(name) && graph.defines(name) {
            graph.unlinked(name).len()
        } else {
            0
        },
    decreases listed.len(),
{
    if listed.len() > 0 {
        let rest = listed.drop_last();
        lemma_unlinked_insert(graph, rest, names, name);
        assert(listed[listed.len() - 1] == listed.last());
        if rest.contains(name) {
            let i = choose|i: int| 0 <= i < rest.len() && rest[i] == name;
            assert(listed[i] == name);
        } else if listed.contains(name) {
            let i = choose|i: int| 0 <= i < listed.len() && listed[i] == name;
            if i < rest.len() {
                assert(rest[i] == name);
            }
        }
    }
}

pub(crate) proof fn lemma_unlinked_same(
    graph: CallGraph,
    listed: Seq<Seq<char>>,
    names: Set<Seq<char>>,
    others: Set<Seq<char>>,
)
    requires
        forall|i: int|
            0 <= i < listed.len() ==> (names.contains(#[trigger] listed[i]) <==> others.contains(
                listed[i],
            )),
    ensures
        graph.unlinked_count(listed, names) == graph.unlinked_count(listed, others),
    decreases listed.len(),
{
    if listed.len() > 0 {
        let rest = listed.drop_last();
        assert forall|i: int| 0 <= i < rest.len() implies (names.contains(#[trigger] rest[i])
            <==> others.contains(rest[i])) by {
            assert(rest[i] == listed[i]);
        }
        lemma_unlinked_same(graph, rest, names, others);
        assert(names.contains(listed[listed.len() - 1]) <==> others.contains(
            listed[listed.len() - 1],
        ));
    }
}

pub(crate) proof fn lemma_unlinked_subset(
    graph: CallGraph,
    listed: Seq<Seq<char>>,
    names: Set<Seq<char>>,
    more: Set<Seq<char>>,
)
    requires
        names.subset_of(more),
    ensures
        graph.unlinked_count(listed, names) <= graph.unlinked_count(listed, more),
    decreases listed.len(),
{
    if listed.len() > 0 {
        lemma_unlinked_subset(graph, listed.drop_last(), names, more);
    }
}

/// Where every call of the defined names is linked, none is left.
proof fn lemma_unlinked_nothing(
    graph: CallGraph,
    listed: Seq<Seq<char>>,
    names: Set<Seq<char>>,
)
    requires
        forall|name: Seq<char>| #[trigger]
            graph.defines(name) ==> graph.unlinked(name).len() == 0,
    ensures
        graph.unlinked_count(listed, names) == 0,
    decreases listed.len(),
{
    if listed.len() > 0 {
        lemma_unlinked_nothing(graph, listed.drop_last(), names);
    }
}

// Laws of the call graph

/// Recording what is found in a file piece by piece is recording it at once.
pub proof fn law_add_file_in_pieces(
    graph: CallGraph,
    file: Seq<char>,
    names: Seq<Seq<char>>,
    more_names: Seq<Seq<char>>,
    calls: Seq<Seq<char>>,
    more_calls: Seq<Seq<char>>,
    imports: Seq<Seq<char>>,
    more_imports: Seq<Seq<char>>,
)
    ensures
        graph.add_file(file, names, calls, imports).add_file(
            file,
            more_names,
            more_calls,
            more_imports,
        ) == graph.add_file(
            file,
            names + more_names,
            calls + more_calls,
            imports + more_imports,
        ),
{
    let first = graph.add_file(file, names, calls, imports);
    let second = first.add_file(file, more_names, more_calls, more_imports);
    let whole = graph.add_file(
        file,
        names + more_names,
        calls + more_calls,
        imports + more_imports,
    );
    assert(first.files.contains(file)) by {
        if !graph.files.contains(file) {
            assert(first.files[graph.files.len() as int] == file);
        }
    }
    assert(second.definitions =~= whole.definitions);
    assert(second.calls =~= whole.calls);
    assert(second.imports =~= whole.imports);
    assert forall|name: Seq<char>|
        (names + more_names).contains(name) <==> names.contains(name) || more_names.contains(
            name,
        ) by {
        if names.contains(name) {
            let i = choose|i: int| 0 <= i < names.len() && names[i] == name;
            assert((names + more_names)[i] == name);
        }
        if more_names.contains(name) {
            let i = choose|i: int| 0 <= i < more_names.len() && more_names[i] == name;
            assert((names + more_names)[names.len() + i] == name);
        }
    }
    assert(second.resolved =~= whole.resolved);
    assert(second =~= whole);
}

/// The call graph of no files is valid, and knows nothing of any name.
pub proof fn law_empty(name: Seq<char>)
    ensures
        CallGraph::empty().valid(),
        CallGraph::empty().context(name) == (GraphContextView {
            symbol: name,
            defined_in: Seq::empty(),
            called_by: Seq::empty(),
        }),
{
}

pub(crate) proof fn lemma_defines_after_add_file(
    graph: CallGraph,
    file: Seq<char>,
    names: Seq<Seq<char>>,
    calls: Seq<Seq<char>>,
    imports: Seq<Seq<char>>,
    name: Seq<char>,
)
    ensures
        graph.add_file(file, names, calls, imports).defines(name) <==> graph.defines(name)
            || names.contains(name),
        names.contains(name) ==> graph.add_file(file, names, calls, imports).context(
            name,
        ).defined_in == seq![file],
        !names.contains(name) ==> last_mention(
            graph.add_file(file, names, calls, imports).definitions,
            name,
        ) == last_mention(graph.definitions, name),
{
    let new = mentions(file, names);
    let after = graph.add_file(file, names, calls, imports);
    lemma_last_mention_add(graph.definitions, new, name);
    lemma_last_mention(new, name);
    lemma_last_mention(graph.definitions, name);
    if names.contains(name) {
        let i = choose|i: int| 0 <= i < names.len() && names[i] == name;
        assert(new[i].1 == name);
        lemma_last_mention_found(new, name, i);
        let last = last_mention(new, name);
        assert(new[last] == (file, names[last]));
        assert(after.definitions[graph.definitions.len() + last] == new[last]);
    } else if last_mention(new, name) >= 0 {
        assert(names[last_mention(new, name)] == name);
    }
}

/// Recording a file keeps a call graph valid.
pub proof fn law_add_file_keeps_valid(
    graph: CallGraph,
    file: Seq<char>,
    names: Seq<Seq<char>>,
    calls: Seq<Seq<char>>,
    imports: Seq<Seq<char>>,
)
    requires
        graph.valid(),
    ensures
        graph.add_file(file, names, calls, imports).valid(),
{
    let after = graph.add_file(file, names, calls, imports);
    assert forall|known: Seq<char>|
        graph.files.contains(known) || known == file implies #[trigger] after.files.contains(
        known,
    ) by {
        if graph.files.contains(known) {
            let i = choose|i: int| 0 <= i < graph.files.len() && graph.files[i] == known;
            assert(after.files[i] == known);
        } else {
            assert(after.files[graph.files.len() as int] == file);
        }
    }
    assert forall|i: int| 0 <= i < after.definitions.len() implies after.files.contains(
        (#[trigger] after.definitions[i]).0,
    ) by {
        if i < graph.definitions.len() {
            assert(after.definitions[i] == graph.definitions[i]);
        }
    }
    assert forall|i: int| 0 <= i < after.calls.len() implies after.files.contains(
        (#[trigger] after.calls[i]).0,
    ) by {
        if i < graph.calls.len() {
            assert(after.calls[i] == graph.calls[i]);
        }
    }
    assert forall|i: int| 0 <= i < after.imports.len() implies after.files.contains(
        (#[trigger] after.imports[i]).0,
    ) by {
        if i < graph.imports.len() {
            assert(after.imports[i] == graph.imports[i]);
        }
    }
    assert forall|name: Seq<char>| #[trigger]
        after.resolved.contains_key(name) <==> after.defines(name) by {
        lemma_defines_after_add_file(graph, file, names, calls, imports, name);
        assert(graph.resolved.contains_key(name) <==> graph.defines(name));
    }
    assert forall|name: Seq<char>| #[trigger]
        after.resolved.contains_key(name) implies after.links_first_calls(name) by {
        lemma_mentioning_add(graph.calls, mentions(file, calls), name);
        let count = after.resolved[name].len() as int;
        if names.contains(name) {
            assert(after.resolved[name] =~= after.callers(name).take(count));
        } else {
            assert(graph.resolved.contains_key(name));
            assert(graph.links_first_calls(name));
            assert(after.callers(name).take(count) =~= graph.callers(name).take(count));
        }
    }
}

pub(crate) proof fn lemma_resolve_only_keeps_valid(graph: CallGraph, names: Set<Seq<char>>)
    requires
        graph.valid(),
    ensures
        graph.resolve_only(names).valid(),
{
    let after = graph.resolve_only(names);
    assert forall|name: Seq<char>| #[trigger]
        after.resolved.contains_key(name) <==> after.defines(name) by {
        assert(graph.resolved.contains_key(name) <==> graph.defines(name));
    }
    assert forall|name: Seq<char>| #[trigger]
        after.resolved.contains_key(name) implies after.links_first_calls(name) by {
        assert(graph.resolved.contains_key(name));
        assert(graph.links_first_calls(name));
        assert(after.callers(name) == graph.callers(name));
        if names.contains(name) {
            lemma_link_rest(graph, name);
            assert(after.callers(name).take(after.resolved[name].len() as int)
                =~= graph.callers(name));
        }
    }
}

/// Linking the calls of one more name.
pub(crate) proof fn lemma_resolve_next(graph: CallGraph, names: Set<Seq<char>>, name: Seq<char>)
    requires
        graph.valid(),
        !names.contains(name),
        graph.resolve().fits(),
    ensures
        graph.resolve_only(names.insert(name)).fits(),
        graph.defines(name) ==> graph.resolve_only(names).resolve_only(set![name])
            == graph.resolve_only(names.insert(name)),
        !graph.defines(name) ==> graph.resolve_only(names) == graph.resolve_only(
            names.insert(name),
        ),
{
    let more = names.insert(name);
    let listed = distinct_names(graph.calls);
    lemma_distinct_names(graph.calls);
    assert(more.subset_of(Set::full()));
    lemma_unlinked_subset(graph, listed, more, Set::full());
    lemma_unlinked_insert(graph, listed, names, name);
    assert(graph.resolved.contains_key(name) <==> graph.defines(name));
    let first = graph.resolve_only(names);
    if graph.defines(name) {
        let second = first.resolve_only(set![name]);
        assert(set![name] =~= Set::empty().insert(name));
        lemma_unlinked_none(first, listed);
        lemma_unlinked_insert(first, listed, Set::empty(), name);
        assert(first.unlinked(name) == graph.unlinked(name));
        assert(second.resolved =~= graph.resolve_only(more).resolved);
        assert(second =~= graph.resolve_only(more));
    } else {
        assert(first.resolved =~= graph.resolve_only(more).resolved);
        assert(first =~= graph.resolve_only(more));
    }
}

/// Linking the calls of no name, and those of every callee name.
pub(crate) proof fn lemma_resolve_ends(graph: CallGraph, names: Set<Seq<char>>)
    requires
        graph.valid(),
    ensures
        graph.resolve_only(Set::empty()) == graph,
        (forall|name: Seq<char>|
            names.contains(name) <==> distinct_names(graph.calls).contains(name))
            ==> graph.resolve_only(names) == graph.resolve(),
{
    let listed = distinct_names(graph.calls);
    lemma_unlinked_none(graph, listed);
    assert(graph.resolve_only(Set::empty()).resolved =~= graph.resolved);
    assert(graph.resolve_only(Set::empty()) =~= graph);
    if forall|name: Seq<char>|
        names.contains(name) <==> distinct_names(graph.calls).contains(name) {
        lemma_distinct_names(graph.calls);
        assert forall|i: int| 0 <= i < listed.len() implies (names.contains(#[trigger] listed[i])
            <==> Set::<Seq<char>>::full().contains(listed[i])) by {
            assert(listed.contains(listed[i]));
        }
        lemma_unlinked_same(graph, listed, names, Set::full());
        assert forall|name: Seq<char>| #[trigger]
            graph.resolved.contains_key(name) implies graph.resolve_only(names).resolved[name]
            == graph.resolve().resolved[name] by {
            if !names.contains(name) {
                if graph.callers(name).len() > 0 {
                    let file = graph.callers(name)[0];
                    assert(graph.callers(name).contains(file));
                    lemma_mentioning_contains(graph.calls, name, file);
                    let i = choose|i: int|
                        0 <= i < graph.calls.len() && graph.calls[i] == (file, name);
                    assert(distinct_names(graph.calls).contains(graph.calls[i].1));
                }
                assert(graph.links_first_calls(name));
                assert(graph.unlinked(name) + graph.resolved[name] =~= graph.resolved[name]);
            }
        }
        assert(graph.resolve_only(names).resolved =~= graph.resolve().resolved);
        assert(graph.resolve_only(names) =~= graph.resolve());
    }
}

/// Linking the calls keeps a call graph valid.
pub proof fn law_resolve_keeps_valid(graph: CallGraph)
    requires
        graph.valid(),
    ensures
        graph.resolve().valid(),
{
    lemma_resolve_only_keeps_valid(graph, Set::full());
}

/// A call graph that fits did so before a file was added to it.
pub(crate) proof fn lemma_fits_before_add_file(
    graph: CallGraph,
    file: Seq<char>,
    names: Seq<Seq<char>>,
    calls: Seq<Seq<char>>,
    imports: Seq<Seq<char>>,
)
    requires
        graph.add_file(file, names, calls, imports).fits(),
    ensures
        graph.with_file(file).fits(),
        graph.fits(),
{
    lemma_distinct_names_grow(graph.calls, mentions(file, calls));
}

/// Recording the next of the names, calls or imports of a file: what is recorded then, and that
/// it fits where everything found in the file fits.
pub(crate) proof fn lemma_record_next(
    graph: CallGraph,
    file: Seq<char>,
    names: Seq<Seq<char>>,
    calls: Seq<Seq<char>>,
    imports: Seq<Seq<char>>,
    i: int,
    j: int,
    k: int,
)
    requires
        0 <= i <= names.len(),
        0 <= j <= calls.len(),
        0 <= k <= imports.len(),
        graph.add_file(file, names, calls, imports).fits(),
    ensures
        graph.add_file(file, names.take(i), calls.take(j), imports.take(k)).fits(),
        i < names.len() ==> graph.add_file(
            file,
            names.take(i),
            calls.take(j),
            imports.take(k),
        ).add_file(file, seq![names[i]], Seq::empty(), Seq::empty()) == graph.add_file(
            file,
            names.take(i + 1),
            calls.take(j),
            imports.take(k),
        ),
        j < calls.len() ==> graph.add_file(
            file,
            names.take(i),
            calls.take(j),
            imports.take(k),
        ).add_file(file, Seq::empty(), seq![calls[j]], Seq::empty()) == graph.add_file(
            file,
            names.take(i),
            calls.take(j + 1),
            imports.take(k),
        ),
        k < imports.len() ==> graph.add_file(
            file,
            names.take(i),
            calls.take(j),
            imports.take(k),
        ).add_file(file, Seq::empty(), Seq::empty(), seq![imports[k]]) == graph.add_file(
            file,
            names.take(i),
            calls.take(j),
            imports.take(k + 1),
        ),
{
    let none = Seq::<Seq<char>>::empty();
    let (n, c, m) = (names.take(i), calls.take(j), imports.take(k));
    assert(n + none =~= n && c + none =~= c && m + none =~= m);
    assert(n + names.skip(i) =~= names);
    assert(c + calls.skip(j) =~= calls);
    assert(m + imports.skip(k) =~= imports);
    law_add_file_in_pieces(
        graph,
        file,
        n,
        names.skip(i),
        c,
        calls.skip(j),
        m,
        imports.skip(k),
    );
    lemma_fits_before_add_file(
        graph.add_file(file, n, c, m),
        file,
        names.skip(i),
        calls.skip(j),
        imports.skip(k),
    );
    if i < names.len() {
        assert(n + seq![names[i]] =~= names.take(i + 1));
        law_add_file_in_pieces(graph, file, n, seq![names[i]], c, none, m, none);
    }
    if j < calls.len() {
        assert(c + seq![calls[j]] =~= calls.take(j + 1));
        law_add_file_in_pieces(graph, file, n, none, c, seq![calls[j]], m, none);
    }
    if k < imports.len() {
        assert(m + seq![imports[k]] =~= imports.take(k + 1));
        law_add_file_in_pieces(graph, file, n, none, c, none, m, seq![imports[k]]);
    }
}

/// The last definition of a name wins: once a file that defines it is recorded, the name is
/// defined in that file alone, and has no callers until the calls are linked.
pub proof fn law_last_definition_wins(
    graph: CallGraph,
    file: Seq<char>,
    names: Seq<Seq<char>>,
    calls: Seq<Seq<char>>,
    imports: Seq<Seq<char>>,
    name: Seq<char>,
)
    requires
        names.contains(name),
    ensures
        graph.add_file(file, names, calls, imports).context(name) == (GraphContextView {
            symbol: name,
            defined_in: seq![file],
            called_by: Seq::empty(),
        }),
{
    lemma_defines_after_add_file(graph, file, names, calls, imports, name);
}

/// Recording a file leaves the context of every name that it does not define as it was.
pub proof fn law_add_file_keeps_other_contexts(
    graph: CallGraph,
    file: Seq<char>,
    names: Seq<Seq<char>>,
    calls: Seq<Seq<char>>,
    imports: Seq<Seq<char>>,
    name: Seq<char>,
)
    requires
        graph.valid(),
        !names.contains(name),
    ensures
        graph.add_file(file, names, calls, imports).context(name) == graph.context(name),
{
    lemma_defines_after_add_file(graph, file, names, calls, imports, name);
    lemma_last_mention(graph.definitions, name);
    if graph.defines(name) {
        assert(graph.resolved.contains_key(name));
        let last = last_mention(graph.definitions, name);
        assert(graph.add_file(file, names, calls, imports).definitions[last]
            == graph.definitions[last]);
    }
}

/// Imports do not affect the call graph: two recordings of a file that differ in its imports
/// alone give every name the same context, before and after the calls are linked.
pub proof fn law_imports_do_not_matter(
    graph: CallGraph,
    file: Seq<char>,
    names: Seq<Seq<char>>,
    calls: Seq<Seq<char>>,
    imports: Seq<Seq<char>>,
    other_imports: Seq<Seq<char>>,
    name: Seq<char>,
)
    ensures
        graph.add_file(file, names, calls, imports).context(name) == graph.add_file(
            file,
            names,
            calls,
            other_imports,
        ).context(name),
        graph.valid() ==> graph.add_file(file, names, calls, imports).resolve().context(name)
            == graph.add_file(file, names, calls, other_imports).resolve().context(name),
{
    if graph.valid() {
        law_add_file_keeps_valid(graph, file, names, calls, imports);
        law_add_file_keeps_valid(graph, file, names, calls, other_imports);
        let one = graph.add_file(file, names, calls, imports);
        let other = graph.add_file(file, names, calls, other_imports);
        assert(one.resolved.contains_key(name) <==> one.defines(name));
        assert(other.resolved.contains_key(name) <==> other.defines(name));
    }
}

/// Linking the calls: a name stays defined where it was, and its callers are the files of the
/// calls that were not linked before, in order, followed by those of the calls that were. A name
/// that nothing defines keeps an empty context, though it is called.
pub proof fn law_resolve_links_callers(graph: CallGraph, name: Seq<char>)
    requires
        graph.valid(),
    ensures
        graph.resolve().context(name) == (GraphContextView {
            symbol: name,
            defined_in: graph.context(name).defined_in,
            called_by: if graph.defines(name) {
                graph.unlinked(name) + graph.context(name).called_by
            } else {
                Seq::empty()
            },
        }),
        !graph.defines(name) ==> graph.context(name).defined_in.len() == 0,
        graph.defines(name) ==> graph.resolve().context(name).called_by == graph.callers(name).skip(
            graph.context(name).called_by.len() as int,
        ) + graph.context(name).called_by,
{
    assert(graph.resolved.contains_key(name) <==> graph.defines(name));
}

/// Once the calls are linked, each call of a defined name is linked once: its callers are the
/// files that call it, each as often as it does. Where no call was linked before, they come in
/// the order of the calls.
pub proof fn law_each_call_is_linked_once(graph: CallGraph, name: Seq<char>)
    requires
        graph.valid(),
        graph.defines(name),
    ensures
        graph.resolve().context(name).called_by.to_multiset() == graph.callers(name).to_multiset(),
        graph.context(name).called_by.len() == 0 ==> graph.resolve().context(name).called_by
            == graph.callers(name),
{
    assert(graph.resolved.contains_key(name));
    assert(graph.links_first_calls(name));
    lemma_link_rest(graph, name);
    if graph.context(name).called_by.len() == 0 {
        assert(graph.unlinked(name) + graph.resolved[name] =~= graph.callers(name));
    }
}

/// Once the calls are linked, the callers of a defined name are the files that call it: each of
/// them, and no other.
pub proof fn law_resolved_callers_are_the_callers(
    graph: CallGraph,
    name: Seq<char>,
    file: Seq<char>,
)
    requires
        graph.valid(),
        graph.defines(name),
    ensures
        graph.resolve().context(name).called_by.contains(file) <==> graph.calls.contains(
            (file, name),
        ),
{
    law_each_call_is_linked_once(graph, name);
    lemma_mentioning_contains(graph.calls, name, file);
    let linked = graph.resolve().context(name).called_by;
    linked.to_multiset_ensures();
    graph.callers(name).to_multiset_ensures();
    assert(linked.to_multiset().count(file) == graph.callers(name).to_multiset().count(file));
}

/// Linking the calls twice is linking them once: the second time there is nothing left to link.
pub proof fn law_resolve_is_idempotent(graph: CallGraph)
    requires
        graph.valid(),
    ensures
        graph.resolve().resolve() == graph.resolve(),
{
    let once = graph.resolve();
    let twice = once.resolve();
    law_resolve_keeps_valid(graph);
    assert forall|name: Seq<char>| #[trigger] once.defines(name) implies once.unlinked(name).len()
        == 0 && once.unlinked(name) + once.resolved[name] == once.resolved[name] by {
        assert(graph.defines(name));
        assert(graph.resolved.contains_key(name));
        assert(graph.links_first_calls(name));
        lemma_link_rest(graph, name);
        assert(once.callers(name) == graph.callers(name));
        assert(once.unlinked(name) + once.resolved[name] =~= once.resolved[name]);
    }
    lemma_unlinked_nothing(once, distinct_names(once.calls), Set::full());
    assert forall|name: Seq<char>| #[trigger] once.resolved.contains_key(
        name,
    ) implies twice.resolved[name] == once.resolved[name] by {
        assert(once.defines(name));
    }
    assert(twice.resolved =~= once.resolved);
    assert(twice =~= once);
}

/// Every caller that is reported of a name does call it, whether or not the latest calls are
/// linked, and a name is reported as defined in at most one file, which does define it.
pub proof fn law_context_is_sound(graph: CallGraph, name: Seq<char>, file: Seq<char>)
    requires
        graph.valid(),
    ensures
        graph.context(name).symbol == name,
        graph.context(name).called_by.contains(file) ==> graph.calls.contains((file, name)),
        graph.context(name).defined_in.contains(file) ==> graph.definitions.contains((file, name)),
        graph.context(name).defined_in.len() <= 1,
        graph.context(name).defined_in.len() == 1 <==> graph.defines(name),
{
    lemma_last_mention(graph.definitions, name);
    lemma_mentioning_contains(graph.calls, name, file);
    if graph.defines(name) {
        assert(graph.resolved.contains_key(name));
        if graph.resolved[name].contains(file) {
            lemma_linked_caller(graph, name, file);
        }
        let last = last_mention(graph.definitions, name);
        assert(graph.definitions.contains(graph.definitions[last]));
    }
}

/// The files that mention a name are those of its mentions, one for each, in order.
pub proof fn law_mentioning_is_a_selection(all: Seq<Mention>, name: Seq<char>)
    ensures
        mentioning(all, name) == all.filter(|mention: Mention| mention.1 == name).map_values(
            |mention: Mention| mention.0,
        ),
    decreases all.len(),
{
    reveal(Seq::filter);
    let of_name = |mention: Mention| mention.1 == name;
    if all.len() > 0 {
        law_mentioning_is_a_selection(all.drop_last(), name);
    }
    assert(mentioning(all, name) =~= all.filter(of_name).map_values(|mention: Mention| mention.0));
}

/// The callers of a name are the files of its recorded calls, one for each, in order.
pub proof fn law_callers_are_those_of_the_calls(graph: CallGraph, name: Seq<char>)
    ensures
        graph.callers(name) == graph.calls.filter(
            |mention: Mention| mention.1 == name,
        ).map_values(|mention: Mention| mention.0),
{
    law_mentioning_is_a_selection(graph.calls, name);
}

/// Recording a file adds each of its definitions, calls and imports behind those that were
/// recorded before, with the path of the file, and the file itself if it is new.
pub proof fn law_recording_keeps_everything(
    graph: CallGraph,
    file: Seq<char>,
    names: Seq<Seq<char>>,
    calls: Seq<Seq<char>>,
    imports: Seq<Seq<char>>,
)
    ensures
        ({
            let after = graph.add_file(file, names, calls, imports);
            &&& after.definitions == graph.definitions + Seq::new(
                names.len(),
                |i: int| (file, names[i]),
            )
            &&& after.calls == graph.calls + Seq::new(calls.len(), |i: int| (file, calls[i]))
            &&& after.imports == graph.imports + Seq::new(
                imports.len(),
                |i: int| (file, imports[i]),
            )
            &&& graph.files.contains(file) ==> after.files == graph.files
            &&& !graph.files.contains(file) ==> after.files == graph.files.push(file)
            &&& after.links == graph.links
        }),
{
    let after = graph.add_file(file, names, calls, imports);
    assert(mentions(file, names) =~= Seq::new(names.len(), |i: int| (file, names[i])));
    assert(mentions(file, calls) =~= Seq::new(calls.len(), |i: int| (file, calls[i])));
    assert(mentions(file, imports) =~= Seq::new(imports.len(), |i: int| (file, imports[i])));
}

/// Recording what was found in a file is recording the names of its symbols, its calls and its
/// imports under its path.
pub proof fn law_recording_what_was_found(graph: CallGraph, parsed: FileParseResultView)
    ensures
        graph.add_parsed(parsed) == graph.add_file(
            parsed.file_path,
            Seq::new(parsed.symbols.len(), |i: int| parsed.symbols[i].name),
            parsed.calls,
            parsed.imports,
        ),
{
    assert(names_of(parsed.symbols) =~= Seq::new(
        parsed.symbols.len(),
        |i: int| parsed.symbols[i].name,
    ));
}

/// A name is defined in the file of its last definition. Nothing is known of a name without one.
pub proof fn law_context_tells_the_last_definition(graph: CallGraph, name: Seq<char>, i: int)
    ensures
        graph.context(name).symbol == name,
        0 <= i < graph.definitions.len() && graph.definitions[i].1 == name && (forall|j: int|
            i < j < graph.definitions.len() ==> (#[trigger] graph.definitions[j]).1 != name)
            ==> graph.context(name).defined_in == seq![graph.definitions[i].0],
        (forall|j: int|
            0 <= j < graph.definitions.len() ==> (#[trigger] graph.definitions[j]).1 != name)
            ==> graph.context(name).defined_in.len() == 0 && graph.context(name).called_by.len()
            == 0,
{
    let all = graph.definitions;
    lemma_last_mention(all, name);
    if 0 <= i < all.len() && all[i].1 == name {
        lemma_last_mention_found(all, name, i);
    }
}

/// Linking the calls changes nothing that was recorded.
pub proof fn law_linking_keeps_what_was_recorded(graph: CallGraph)
    ensures
        graph.resolve().files == graph.files,
        graph.resolve().definitions == graph.definitions,
        graph.resolve().calls == graph.calls,
        graph.resolve().imports == graph.imports,
{
}

/// How many mentions are of a listed name, for each time it is listed.
spec fn calls_of(all: Seq<Mention>, listed: Seq<Seq<char>>) -> nat
    decreases listed.len(),
{
    if listed.len() == 0 {
        0
    } else {
        calls_of(all, listed.drop_last()) + mentioning(all, listed.last()).len()
    }
}

proof fn lemma_unlinked_calls(graph: CallGraph, listed: Seq<Seq<char>>)
    requires
        graph.valid(),
    ensures
        graph.unlinked_count(listed, Set::full()) <= calls_of(graph.calls, listed),
    decreases listed.len(),
{
    if listed.len() > 0 {
        lemma_unlinked_calls(graph, listed.drop_last());
        if graph.defines(listed.last()) {
            assert(graph.resolved.contains_key(listed.last()));
            assert(graph.links_first_calls(listed.last()));
        }
    }
}

proof fn lemma_calls_of_distinct(all: Seq<Mention>, listed: Seq<Seq<char>>)
    requires
        listed.no_duplicates(),
    ensures
        calls_of(all, listed) <= all.len(),
    decreases all.len(),
{
    if all.len() == 0 {
        lemma_calls_of_none(all, listed);
    } else {
        let rest = all.drop_last();
        lemma_calls_of_distinct(rest, listed);
        lemma_calls_of_next(all, listed);
    }
}

proof fn lemma_calls_of_none(all: Seq<Mention>, listed: Seq<Seq<char>>)
    requires
        all.len() == 0,
    ensures
        calls_of(all, listed) == 0,
    decreases listed.len(),
{
    if listed.len() > 0 {
        lemma_calls_of_none(all, listed.drop_last());
    }
}

proof fn lemma_calls_of_next(all: Seq<Mention>, listed: Seq<Seq<char>>)
    requires
        all.len() > 0,
        listed.no_duplicates(),
    ensures
        calls_of(all, listed) <= calls_of(all.drop_last(), listed) + if listed.contains(
            all.last().1,
        ) {
            1int
        } else {
            0
        },
    decreases listed.len(),
{
    if listed.len() > 0 {
        let rest = listed.drop_last();
        lemma_calls_of_next(all, rest);
        assert(listed[listed.len() - 1] == listed.last());
        if rest.contains(all.last().1) {
            let i = choose|i: int| 0 <= i < rest.len() && rest[i] == all.last().1;
            assert(listed[i] == all.last().1);
        }
    }
}

/// A graph fits where its files, definitions, calls and imports are at most `u32::MAX` together,
/// and so are its definitions, calls, imports and links. Linking the calls adds at most one link
/// for each call.
pub proof fn law_what_fits(graph: CallGraph)
    requires
        graph.valid(),
    ensures
        graph.files.len() + graph.definitions.len() + graph.calls.len() + graph.imports.len()
            <= u32::MAX && graph.definitions.len() + graph.calls.len() + graph.imports.len()
            + graph.links <= u32::MAX ==> graph.fits(),
        graph.fits() <==> graph.node_count() <= u32::MAX && graph.edge_count() <= u32::MAX,
        graph.resolve().links <= graph.links + graph.calls.len(),
        graph.files.len() + graph.definitions.len() + graph.calls.len() + graph.imports.len()
            <= u32::MAX && graph.definitions.len() + 2 * graph.calls.len() + graph.imports.len()
            + graph.links <= u32::MAX ==> graph.resolve().fits(),
{
    let listed = distinct_names(graph.calls);
    lemma_distinct_names(graph.calls);
    lemma_unlinked_calls(graph, listed);
    lemma_calls_of_distinct(graph.calls, listed);
}

} // verus!
