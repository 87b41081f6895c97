//! The call graph engine: records what was found in each file in a directed graph, links calls
//! to definitions, and answers where a symbol is defined and who calls it.

use petgraph::stable_graph::StableDiGraph;
use vstd::hash_map::StringHashMap;
use vstd::prelude::*;

use crate::call_graph;
use crate::call_graph::CallGraph;
use crate::digraph;
use crate::digraph::{EdgeKind, NodeData};
use crate::types;
use crate::types::{GraphContext, ParsedSymbol};

verus! {

/// The call graph of a workspace.
///
/// Its view is the `CallGraph` that it holds.
pub struct CallGraphEngine {
    graph: StableDiGraph<NodeData, EdgeKind>,
    /// Symbol name to the node of its last definition.
    symbol_index: StringHashMap<usize>,
    /// File path to the node of the file.
    file_index: StringHashMap<usize>,
    /// Callee name to the node that stands for the calls of it.
    unresolved_index: StringHashMap<usize>,
    /// The callee names, each once, in the order in which they first appeared.
    unresolved_names: Vec<String>,
    /// The call graph that the nodes and edges represent.
    model: Ghost<CallGraph>,
    /// The node of each definition.
    symbol_nodes: Ghost<Seq<usize>>,
    /// The node of each import.
    import_nodes: Ghost<Seq<usize>>,
}

/// One edge of the given kind from the node of each file.
spec fn links(
    file_index: Map<Seq<char>, usize>,
    files: Seq<Seq<char>>,
    kind: EdgeKind,
) -> Seq<(usize, EdgeKind)> {
    files.map_values(|file: Seq<char>| (file_index[file], kind))
}

impl View for CallGraphEngine {
    type V = CallGraph;

    closed spec fn view(&self) -> CallGraph {
        self.model@
    }
}

impl CallGraphEngine {
    spec fn nodes(self) -> Map<usize, NodeData> {
        digraph::graph_nodes(self.graph)
    }

    spec fn incoming(self) -> Map<usize, Seq<(usize, EdgeKind)>> {
        digraph::graph_incoming(self.graph)
    }

    /// Each file has a node of its own, at which no edge points.
    spec fn wf_files(self) -> bool {
        &&& forall|file: Seq<char>| #[trigger]
            self.file_index@.contains_key(file) <==> self@.files.contains(file)
        &&& forall|file: Seq<char>| #[trigger]
            self.file_index@.contains_key(file) ==> {
                let node = self.file_index@[file];
                &&& self.nodes().contains_key(node)
                &&& self.nodes()[node] matches NodeData::File { path }
                &&& path@ == file
                &&& self.incoming()[node] == Seq::<(usize, EdgeKind)>::empty()
            }
    }

    /// Each definition has a node of its own, at which its file points.
    spec fn wf_definitions(self) -> bool {
        &&& self.symbol_nodes@.len() == self@.definitions.len()
        &&& self.symbol_nodes@.no_duplicates()
        &&& forall|i: int|
            0 <= i < self.symbol_nodes@.len() ==> {
                let node = #[trigger] self.symbol_nodes@[i];
                let (file, symbol) = self@.definitions[i];
                &&& self.nodes().contains_key(node)
                &&& self.nodes()[node] matches NodeData::Symbol { name, file_path }
                &&& name@ == symbol
                &&& file_path@ == file
                &&& self.incoming()[node].len() > 0
                &&& self.incoming()[node].last() == (self.file_index@[file], EdgeKind::Defines)
            }
    }

    /// Each defined name leads to the node of its last definition. Its callers point at that
    /// node, too.
    spec fn wf_symbols(self) -> bool {
        forall|name: Seq<char>|
            {
                &&& #[trigger] self.symbol_index@.contains_key(name)
                    <==> self@.resolved.contains_key(name)
                &&& self.symbol_index@.contains_key(name) ==> {
                    let last = call_graph::last_mention(self@.definitions, name);
                    let node = self.symbol_index@[name];
                    &&& node == self.symbol_nodes@[last]
                    &&& self.incoming()[node] == links(
                        self.file_index@,
                        self@.resolved[name],
                        EdgeKind::CallsResolved,
                    ).push((self.file_index@[self@.definitions[last].0], EdgeKind::Defines))
                }
            }
    }

    /// Each callee name has a node, at which the calling files point, once for each call.
    spec fn wf_calls(self) -> bool {
        &&& types::string_views(self.unresolved_names@) == call_graph::distinct_names(self@.calls)
        &&& forall|name: Seq<char>| #[trigger]
            self.unresolved_index@.contains_key(name) <==> call_graph::distinct_names(self@.calls).contains(
                name,
            )
        &&& forall|callee: Seq<char>| #[trigger]
            self.unresolved_index@.contains_key(callee) ==> {
                let node = self.unresolved_index@[callee];
                &&& self.nodes().contains_key(node)
                &&& self.nodes()[node] matches NodeData::UnresolvedCall { name }
                &&& name@ == callee
                &&& self.incoming()[node] == links(
                    self.file_index@,
                    self@.callers(callee).reverse(),
                    EdgeKind::Calls,
                )
            }
    }

    /// Each import has a node of its own, at which its file points.
    spec fn wf_imports(self) -> bool {
        &&& self.import_nodes@.len() == self@.imports.len()
        &&& self.import_nodes@.no_duplicates()
        &&& forall|i: int|
            0 <= i < self.import_nodes@.len() ==> {
                let node = #[trigger] self.import_nodes@[i];
                let (file, module) = self@.imports[i];
                &&& self.nodes().contains_key(node)
                &&& self.nodes()[node] matches NodeData::Module { name }
                &&& name@ == module
                &&& self.incoming()[node] == seq![(self.file_index@[file], EdgeKind::Imports)]
            }
    }

    /// There are no other nodes and edges.
    spec fn wf_counts(self) -> bool {
        &&& self.nodes().dom().finite()
        &&& self.incoming().dom() == self.nodes().dom()
        &&& self.nodes().len() == self@.node_count()
        &&& digraph::graph_edge_count(self.graph) == self@.edge_count()
        &&& self@.fits()
    }

    /// The nodes, the edges and the indices represent a valid call graph.
    pub closed spec fn wf(self) -> bool {
        &&& self@.valid()
        &&& self.wf_files()
        &&& self.wf_definitions()
        &&& self.wf_symbols()
        &&& self.wf_calls()
        &&& self.wf_imports()
        &&& self.wf_counts()
    }

    /// A call graph without files.
    pub fn new() -> (engine: Self)
        ensures
            engine.wf(),
            engine@ == CallGraph::empty(),
    {
        let engine = CallGraphEngine {
            graph: digraph::new_graph(),
            symbol_index: StringHashMap::new(),
            file_index: StringHashMap::new(),
            unresolved_index: StringHashMap::new(),
            unresolved_names: Vec::new(),
            model: Ghost(CallGraph::empty()),
            symbol_nodes: Ghost(Seq::empty()),
            import_nodes: Ghost(Seq::empty()),
        };
        assert(types::string_views(engine.unresolved_names@) =~= Seq::empty());
        engine
    }
}

impl CallGraphEngine {
    /// The node of a file, which is added if the file is new.
    fn file_node(&mut self, file_path: &str) -> (node: usize)
        requires
            old(self).wf(),
            old(self)@.with_file(file_path@).fits(),
        ensures
            final(self).wf(),
            final(self)@ == old(self)@.with_file(file_path@),
            final(self).file_index@.contains_key(file_path@),
            node == final(self).file_index@[file_path@],
    {
        let ghost file = file_path@;
        if let Some(node) = self.file_index.get(file_path) {
            return *node;
        }
        assert(!self@.files.contains(file));
        let node = digraph::add_node(
            &mut self.graph,
            NodeData::File { path: file_path.to_string() },
        );
        self.file_index.insert(file_path.to_string(), node);
        self.model = Ghost(self.model@.with_file(file));
        proof {
            let before = *old(self);
            assert(self@.files == before@.files.push(file));
            assert forall|known: Seq<char>|
                self@.files.contains(known) <==> before@.files.contains(known) || known
                    == file by {
                if before@.files.contains(known) {
                    let i = choose|i: int|
                        0 <= i < before@.files.len() && before@.files[i] == known;
                    assert(self@.files[i] == known);
                }
                assert(self@.files[before@.files.len() as int] == file);
            }
            assert(self@.valid());
            assert forall|known: Seq<char>| before@.files.contains(known) implies #[trigger]
                self.file_index@[known] == before.file_index@[known] by {
            }
            assert(self.wf_files());
            assert forall|i: int| 0 <= i < self.symbol_nodes@.len() implies {
                let node = #[trigger] self.symbol_nodes@[i];
                let (file, symbol) = self@.definitions[i];
                &&& self.nodes().contains_key(node)
                &&& self.nodes()[node] == before.nodes()[node]
                &&& self.incoming()[node] == before.incoming()[node]
                &&& self.file_index@[file] == before.file_index@[file]
            } by {
                assert(before.symbol_nodes@[i] == self.symbol_nodes@[i]);
                assert(before@.files.contains(before@.definitions[i].0));
            }
            assert(self.wf_definitions());
            assert forall|name: Seq<char>| #[trigger]
                self.symbol_index@.contains_key(name) implies {
                let last = call_graph::last_mention(self@.definitions, name);
                let node = self.symbol_index@[name];
                &&& node == self.symbol_nodes@[last]
                &&& self.incoming()[node] == links(
                    self.file_index@,
                    self@.resolved[name],
                    EdgeKind::CallsResolved,
                ).push((self.file_index@[self@.definitions[last].0], EdgeKind::Defines))
            } by {
                call_graph::lemma_last_mention(self@.definitions, name);
                let last = call_graph::last_mention(self@.definitions, name);
                assert(before.symbol_index@.contains_key(name));
                assert(before@.resolved.contains_key(name));
                assert(before@.files.contains(before@.definitions[last].0));
                before.lemma_resolved_files(name);
                lemma_links_same(
                    before.file_index@,
                    self.file_index@,
                    self@.resolved[name],
                    EdgeKind::CallsResolved,
                );
            }
            assert(self.wf_symbols());
            assert forall|callee: Seq<char>| #[trigger]
                self.unresolved_index@.contains_key(callee) implies self.incoming()[self.unresolved_index@[callee]]
                == links(
                self.file_index@,
                self@.callers(callee).reverse(),
                EdgeKind::Calls,
            ) by {
                before.lemma_caller_files(callee);
                lemma_links_same(
                    before.file_index@,
                    self.file_index@,
                    self@.callers(callee).reverse(),
                    EdgeKind::Calls,
                );
            }
            assert(self.wf_calls());
            assert forall|i: int| 0 <= i < self.import_nodes@.len() implies {
                let node = #[trigger] self.import_nodes@[i];
                let (file, module) = self@.imports[i];
                &&& self.nodes().contains_key(node)
                &&& self.nodes()[node] == before.nodes()[node]
                &&& self.incoming()[node] == before.incoming()[node]
                &&& self.file_index@[file] == before.file_index@[file]
            } by {
                assert(before.import_nodes@[i] == self.import_nodes@[i]);
                assert(before@.files.contains(before@.imports[i].0));
            }
            assert(self.wf_imports());
            assert(self.incoming().dom() =~= self.nodes().dom());
            assert(self.wf_counts());
        }
        node
    }

    /// Records that a file defines a symbol.
    fn record_definition(&mut self, file_path: &str, file_node: usize, name: &str)
        requires
            old(self).wf(),
            old(self).file_index@.contains_key(file_path@),
            file_node == old(self).file_index@[file_path@],
            old(self)@.add_file(file_path@, seq![name@], Seq::empty(), Seq::empty()).fits(),
        ensures
            final(self).wf(),
            final(self)@ == old(self)@.add_file(
                file_path@,
                seq![name@],
                Seq::empty(),
                Seq::empty(),
            ),
            final(self).file_index@ == old(self).file_index@,
    {
        let ghost file = file_path@;
        let ghost after = self@.add_file(file, seq![name@], Seq::empty(), Seq::empty());
        proof {
            assert(after.files == self@.files);
            assert(after.definitions =~= self@.definitions.push((file, name@)));
            assert(after.calls =~= self@.calls);
            assert(after.imports =~= self@.imports);
            assert(seq![name@].contains(name@)) by {
                assert(seq![name@][0] == name@);
            }
            assert(after.resolved =~= self@.resolved.insert(name@, Seq::empty()));
            call_graph::law_add_file_keeps_valid(
                self@,
                file,
                seq![name@],
                Seq::empty(),
                Seq::empty(),
            );
        }
        let node = digraph::add_node(
            &mut self.graph,
            NodeData::Symbol { name: name.to_string(), file_path: file_path.to_string() },
        );
        digraph::add_edge(&mut self.graph, file_node, node, EdgeKind::Defines);
        self.symbol_index.insert(name.to_string(), node);
        self.model = Ghost(after);
        self.symbol_nodes = Ghost(self.symbol_nodes@.push(node));
        proof {
            let before = *old(self);
            let last = before@.definitions.len() as int;
            assert(self.incoming()[node] =~= seq![(file_node, EdgeKind::Defines)]);
            assert(self.symbol_nodes@.no_duplicates()) by {
                assert forall|i: int| 0 <= i < last implies before.symbol_nodes@[i] != node by {
                    assert(before.nodes().contains_key(before.symbol_nodes@[i]));
                }
            }
            assert forall|i: int| 0 <= i < self.symbol_nodes@.len() implies {
                let node = #[trigger] self.symbol_nodes@[i];
                let (file, symbol) = self@.definitions[i];
                &&& self.nodes().contains_key(node)
                &&& self.nodes()[node] matches NodeData::Symbol { name, file_path }
                &&& name@ == symbol
                &&& file_path@ == file
                &&& self.incoming()[node].len() > 0
                &&& self.incoming()[node].last() == (self.file_index@[file], EdgeKind::Defines)
            } by {
                if i < last {
                    assert(before.symbol_nodes@[i] == self.symbol_nodes@[i]);
                    assert(before.nodes().contains_key(before.symbol_nodes@[i]));
                    assert(before@.definitions[i] == self@.definitions[i]);
                }
            }
            assert(self.wf_definitions());
            assert forall|defined: Seq<char>|
                {
                    &&& #[trigger] self.symbol_index@.contains_key(defined)
                        <==> self@.resolved.contains_key(defined)
                    &&& self.symbol_index@.contains_key(defined) ==> {
                        let last = call_graph::last_mention(self@.definitions, defined);
                        let node = self.symbol_index@[defined];
                        &&& node == self.symbol_nodes@[last]
                        &&& self.incoming()[node] == links(
                            self.file_index@,
                            self@.resolved[defined],
                            EdgeKind::CallsResolved,
                        ).push((self.file_index@[self@.definitions[last].0], EdgeKind::Defines))
                    }
                } by {
                call_graph::lemma_last_mention_push(
                    before@.definitions,
                    (file, name@),
                    defined,
                );
                call_graph::lemma_last_mention(before@.definitions, defined);
                assert(before.symbol_index@.contains_key(defined)
                    <==> before@.resolved.contains_key(defined));
                if defined == name@ {
                    assert(links(
                        self.file_index@,
                        self@.resolved[defined],
                        EdgeKind::CallsResolved,
                    ).push((file_node, EdgeKind::Defines)) =~= self.incoming()[node]);
                } else if before.symbol_index@.contains_key(defined) {
                    let k = call_graph::last_mention(before@.definitions, defined);
                    assert(before@.defines(defined));
                    assert(before.nodes().contains_key(before.symbol_nodes@[k]));
                    assert(self.symbol_nodes@[k] == before.symbol_nodes@[k]);
                    assert(self@.definitions[k] == before@.definitions[k]);
                }
            }
            assert(self.wf_symbols());
            assert(self.wf_files());
            assert(self.wf_calls());
            assert(self.wf_imports()) by {
                assert forall|i: int| 0 <= i < self.import_nodes@.len() implies {
                    let node = #[trigger] self.import_nodes@[i];
                    &&& before.nodes().contains_key(node)
                    &&& self.nodes()[node] == before.nodes()[node]
                    &&& self.incoming()[node] == before.incoming()[node]
                } by {
                    assert(before.import_nodes@[i] == self.import_nodes@[i]);
                }
            }
            assert(self.incoming().dom() =~= self.nodes().dom());
            assert(self.wf_counts());
        }
    }

    /// Records that a file calls a name.
    fn record_call(&mut self, file_path: &str, file_node: usize, callee: &str)
        requires
            old(self).wf(),
            old(self).file_index@.contains_key(file_path@),
            file_node == old(self).file_index@[file_path@],
            old(self)@.add_file(file_path@, Seq::empty(), seq![callee@], Seq::empty()).fits(),
        ensures
            final(self).wf(),
            final(self)@ == old(self)@.add_file(
                file_path@,
                Seq::empty(),
                seq![callee@],
                Seq::empty(),
            ),
            final(self).file_index@ == old(self).file_index@,
    {
        let ghost file = file_path@;
        let ghost after = self@.add_file(file, Seq::empty(), seq![callee@], Seq::empty());
        proof {
            assert(after.files == self@.files);
            assert(after.definitions =~= self@.definitions);
            assert(after.calls =~= self@.calls.push((file, callee@)));
            assert(after.imports =~= self@.imports);
            assert(after.resolved =~= self@.resolved);
            call_graph::law_add_file_keeps_valid(
                self@,
                file,
                Seq::empty(),
                seq![callee@],
                Seq::empty(),
            );
            call_graph::lemma_distinct_names_push(self@.calls, (file, callee@));
            call_graph::lemma_distinct_names(self@.calls);
        }
        let known = match self.unresolved_index.get(callee) {
            Some(node) => Some(*node),
            None => None,
        };
        let node = match known {
            Some(node) => node,
            None => {
                let node = digraph::add_node(
                    &mut self.graph,
                    NodeData::UnresolvedCall { name: callee.to_string() },
                );
                self.unresolved_index.insert(callee.to_string(), node);
                self.unresolved_names.push(callee.to_string());
                node
            },
        };
        digraph::add_edge(&mut self.graph, file_node, node, EdgeKind::Calls);
        self.model = Ghost(after);
        proof {
            let before = *old(self);
            let names = call_graph::distinct_names(before@.calls);
            assert(types::string_views(self.unresolved_names@) =~= call_graph::distinct_names(
                after.calls,
            ));
            assert forall|name: Seq<char>|
                call_graph::distinct_names(after.calls).contains(name) <==> names.contains(name)
                    || name == callee@ by {
                if names.contains(name) {
                    let i = choose|i: int| 0 <= i < names.len() && names[i] == name;
                    assert(call_graph::distinct_names(after.calls)[i] == name);
                }
                if !names.contains(callee@) {
                    assert(call_graph::distinct_names(after.calls)[names.len() as int] == callee@);
                }
            }
            assert forall|other: usize|
                before.nodes().contains_key(other) && other != node implies {
                &&& self.nodes().contains_key(other)
                &&& #[trigger] self.nodes()[other] == before.nodes()[other]
                &&& self.incoming()[other] == before.incoming()[other]
            } by {
            }
            assert(known is Some ==> before.nodes()[node] is UnresolvedCall);
            assert(self.wf_files());
            assert(self.wf_definitions()) by {
                assert forall|i: int| 0 <= i < self.symbol_nodes@.len() implies {
                    let other = #[trigger] self.symbol_nodes@[i];
                    &&& before.nodes().contains_key(other)
                    &&& other != node
                } by {
                    assert(before.symbol_nodes@[i] == self.symbol_nodes@[i]);
                    assert(before.nodes()[before.symbol_nodes@[i]] is Symbol);
                }
            }
            assert(self.wf_symbols()) by {
                assert forall|defined: Seq<char>| #[trigger]
                    self.symbol_index@.contains_key(defined) implies self.incoming()[self.symbol_index@[defined]]
                    == before.incoming()[self.symbol_index@[defined]] by {
                    assert(before.symbol_index@.contains_key(defined));
                    assert(before@.resolved.contains_key(defined));
                    assert(before@.defines(defined));
                    call_graph::lemma_last_mention(before@.definitions, defined);
                    let k = call_graph::last_mention(before@.definitions, defined);
                    assert(before.nodes()[before.symbol_nodes@[k]] is Symbol);
                }
            }
            assert forall|name: Seq<char>| #[trigger]
                self.unresolved_index@.contains_key(name) implies self.incoming()[self.unresolved_index@[name]]
                == links(
                self.file_index@,
                self@.callers(name).reverse(),
                EdgeKind::Calls,
            ) by {
                call_graph::lemma_mentioning_push(before@.calls, (file, callee@), name);
                if name == callee@ {
                    if known is None {
                        assert(before@.callers(name).len() == 0) by {
                            if before@.callers(name).len() > 0 {
                                let caller = before@.callers(name)[0];
                                assert(before@.callers(name).contains(caller));
                                call_graph::lemma_mentioning_contains(
                                    before@.calls,
                                    name,
                                    caller,
                                );
                                let k = choose|k: int|
                                    0 <= k < before@.calls.len() && before@.calls[k] == (
                                        caller,
                                        name,
                                    );
                                assert(names.contains(before@.calls[k].1));
                            }
                        }
                    }
                    assert(self.incoming()[node] =~= links(
                        self.file_index@,
                        self@.callers(name).reverse(),
                        EdgeKind::Calls,
                    ));
                } else {
                    assert(before.unresolved_index@.contains_key(name));
                }
            }
            assert(self.wf_calls());
            assert(self.wf_imports()) by {
                assert forall|i: int| 0 <= i < self.import_nodes@.len() implies {
                    let other = #[trigger] self.import_nodes@[i];
                    &&& before.nodes().contains_key(other)
                    &&& other != node
                } by {
                    assert(before.import_nodes@[i] == self.import_nodes@[i]);
                    assert(before.nodes()[before.import_nodes@[i]] is Module);
                }
            }
            assert(self.incoming().dom() =~= self.nodes().dom());
            assert(self.wf_counts());
        }
    }

    /// Records that a file imports a module.
    fn record_import(&mut self, file_path: &str, file_node: usize, module: &str)
        requires
            old(self).wf(),
            old(self).file_index@.contains_key(file_path@),
            file_node == old(self).file_index@[file_path@],
            old(self)@.add_file(file_path@, Seq::empty(), Seq::empty(), seq![module@]).fits(),
        ensures
            final(self).wf(),
            final(self)@ == old(self)@.add_file(
                file_path@,
                Seq::empty(),
                Seq::empty(),
                seq![module@],
            ),
            final(self).file_index@ == old(self).file_index@,
    {
        let ghost file = file_path@;
        let ghost after = self@.add_file(file, Seq::empty(), Seq::empty(), seq![module@]);
        proof {
            assert(after.files == self@.files);
            assert(after.definitions =~= self@.definitions);
            assert(after.calls =~= self@.calls);
            assert(after.imports =~= self@.imports.push((file, module@)));
            assert(after.resolved =~= self@.resolved);
            call_graph::law_add_file_keeps_valid(
                self@,
                file,
                Seq::empty(),
                Seq::empty(),
                seq![module@],
            );
        }
        let node = digraph::add_node(
            &mut self.graph,
            NodeData::Module { name: module.to_string() },
        );
        digraph::add_edge(&mut self.graph, file_node, node, EdgeKind::Imports);
        self.model = Ghost(after);
        self.import_nodes = Ghost(self.import_nodes@.push(node));
        proof {
            let before = *old(self);
            let last = before@.imports.len() as int;
            assert(self.incoming()[node] =~= seq![(file_node, EdgeKind::Imports)]);
            assert(self.import_nodes@.no_duplicates()) by {
                assert forall|i: int| 0 <= i < last implies before.import_nodes@[i] != node by {
                    assert(before.nodes().contains_key(before.import_nodes@[i]));
                }
            }
            assert forall|i: int| 0 <= i < self.import_nodes@.len() implies {
                let node = #[trigger] self.import_nodes@[i];
                let (file, module) = self@.imports[i];
                &&& self.nodes().contains_key(node)
                &&& self.nodes()[node] matches NodeData::Module { name }
                &&& name@ == module
                &&& self.incoming()[node] == seq![(self.file_index@[file], EdgeKind::Imports)]
            } by {
                if i < last {
                    assert(before.import_nodes@[i] == self.import_nodes@[i]);
                    assert(before.nodes().contains_key(before.import_nodes@[i]));
                    assert(before@.imports[i] == self@.imports[i]);
                }
            }
            assert(self.wf_imports());
            assert(self.wf_files());
            assert(self.wf_definitions()) by {
                assert forall|i: int| 0 <= i < self.symbol_nodes@.len() implies {
                    let other = #[trigger] self.symbol_nodes@[i];
                    &&& before.nodes().contains_key(other)
                    &&& other != node
                } by {
                    assert(before.symbol_nodes@[i] == self.symbol_nodes@[i]);
                }
            }
            assert(self.wf_symbols()) by {
                assert forall|defined: Seq<char>| #[trigger]
                    self.symbol_index@.contains_key(defined) implies self.incoming()[self.symbol_index@[defined]]
                    == before.incoming()[self.symbol_index@[defined]] by {
                    assert(before.symbol_index@.contains_key(defined));
                    assert(before@.resolved.contains_key(defined));
                    assert(before@.defines(defined));
                    call_graph::lemma_last_mention(before@.definitions, defined);
                    let k = call_graph::last_mention(before@.definitions, defined);
                    assert(before.nodes().contains_key(before.symbol_nodes@[k]));
                }
            }
            assert(self.wf_calls());
            assert(self.incoming().dom() =~= self.nodes().dom());
            assert(self.wf_counts());
        }
    }

    /// Adds the parsed data of a single file to the graph.
    ///
    /// The underlying graph holds at most `u32::MAX` nodes and as many edges; see `has_room_for`.
    pub fn add_file_data(
        &mut self,
        file_path: &str,
        symbols: &[ParsedSymbol],
        calls: &[String],
        imports: &[String],
    )
        requires
            old(self).wf(),
            old(self)@.add_file(
                file_path@,
                call_graph::names_of(types::symbol_views(symbols@)),
                types::string_views(calls@),
                types::string_views(imports@),
            ).fits(),
        ensures
            final(self).wf(),
            final(self)@ == old(self)@.add_file(
                file_path@,
                call_graph::names_of(types::symbol_views(symbols@)),
                types::string_views(calls@),
                types::string_views(imports@),
            ),
    {
        let ghost file = file_path@;
        let ghost start = self@;
        let ghost all_names = call_graph::names_of(types::symbol_views(symbols@));
        let ghost all_calls = types::string_views(calls@);
        let ghost all_imports = types::string_views(imports@);
        proof {
            call_graph::lemma_fits_before_add_file(start, file, all_names, all_calls, all_imports);
        }

        let file_node = self.file_node(file_path);
        assert(self@ =~= start.add_file(
            file,
            all_names.take(0),
            all_calls.take(0),
            all_imports.take(0),
        ));

        let mut i: usize = 0;
        while i < symbols.len()
            invariant
                self.wf(),
                self.file_index@.contains_key(file_path@),
                file_node == self.file_index@[file_path@],
                0 <= i <= symbols.len(),
                file == file_path@,
                all_names == call_graph::names_of(types::symbol_views(symbols@)),
                self@ == start.add_file(file, all_names.take(i as int), all_calls.take(0), all_imports.take(0)),
                start.add_file(file, all_names, all_calls, all_imports).fits(),
            decreases symbols.len() - i,
        {
            proof {
                call_graph::lemma_record_next(
                    start,
                    file,
                    all_names,
                    all_calls,
                    all_imports,
                    i as int,
                    0,
                    0,
                );
                call_graph::lemma_record_next(
                    start,
                    file,
                    all_names,
                    all_calls,
                    all_imports,
                    i as int + 1,
                    0,
                    0,
                );
            }
            self.record_definition(file_path, file_node, symbols[i].name.as_str());
            i += 1;
        }
        assert(all_names.take(i as int) =~= all_names.take(all_names.len() as int));

        let mut j: usize = 0;
        while j < calls.len()
            invariant
                self.wf(),
                self.file_index@.contains_key(file_path@),
                file_node == self.file_index@[file_path@],
                0 <= j <= calls.len(),
                file == file_path@,
                all_calls == types::string_views(calls@),
                self@ == start.add_file(file, all_names.take(all_names.len() as int), all_calls.take(j as int), all_imports.take(0)),
                start.add_file(file, all_names, all_calls, all_imports).fits(),
            decreases calls.len() - j,
        {
            proof {
                call_graph::lemma_record_next(
                    start,
                    file,
                    all_names,
                    all_calls,
                    all_imports,
                    all_names.len() as int,
                    j as int,
                    0,
                );
                call_graph::lemma_record_next(
                    start,
                    file,
                    all_names,
                    all_calls,
                    all_imports,
                    all_names.len() as int,
                    j as int + 1,
                    0,
                );
            }
            self.record_call(file_path, file_node, calls[j].as_str());
            j += 1;
        }
        assert(all_calls.take(j as int) =~= all_calls.take(all_calls.len() as int));

        let mut k: usize = 0;
        while k < imports.len()
            invariant
                self.wf(),
                self.file_index@.contains_key(file_path@),
                file_node == self.file_index@[file_path@],
                0 <= k <= imports.len(),
                file == file_path@,
                all_imports == types::string_views(imports@),
                self@ == start.add_file(file, all_names.take(all_names.len() as int), all_calls.take(all_calls.len() as int), all_imports.take(k as int)),
                start.add_file(file, all_names, all_calls, all_imports).fits(),
            decreases imports.len() - k,
        {
            proof {
                call_graph::lemma_record_next(
                    start,
                    file,
                    all_names,
                    all_calls,
                    all_imports,
                    all_names.len() as int,
                    all_calls.len() as int,
                    k as int,
                );
                call_graph::lemma_record_next(
                    start,
                    file,
                    all_names,
                    all_calls,
                    all_imports,
                    all_names.len() as int,
                    all_calls.len() as int,
                    k as int + 1,
                );
            }
            self.record_import(file_path, file_node, imports[k].as_str());
            k += 1;
        }
        assert(all_names.take(all_names.len() as int) =~= all_names);
        assert(all_calls.take(all_calls.len() as int) =~= all_calls);
        assert(all_imports.take(k as int) =~= all_imports);
    }

    /// The edges of those calls of a defined name that are not linked to its last definition
    /// yet, the latest call first.
    fn unlinked_calls(&self, name: &str) -> (edges: Vec<(usize, EdgeKind)>)
        requires
            self.wf(),
            self.symbol_index@.contains_key(name@),
            self.unresolved_index@.contains_key(name@),
        ensures
            edges@ == links(
                self.file_index@,
                self@.unlinked(name@).reverse(),
                EdgeKind::Calls,
            ),
            self@.resolved[name@].len() <= self@.callers(name@).len(),
    {
        proof {
            assert(self@.resolved.contains_key(name@));
            assert(self@.links_first_calls(name@));
            call_graph::lemma_last_mention(self@.definitions, name@);
            assert(self.nodes().contains_key(
                self.symbol_nodes@[call_graph::last_mention(self@.definitions, name@)],
            ));
        }
        let symbol = *self.symbol_index.get(name).unwrap();
        let call = *self.unresolved_index.get(name).unwrap();
        // All edges at the node of a definition but the one from its file are links.
        let linked: usize = digraph::incoming_edges(&self.graph, symbol).len() - 1;
        let mut edges = digraph::incoming_edges(&self.graph, call);
        let unlinked: usize = edges.len() - linked;
        edges.truncate(unlinked);
        assert(edges@ =~= links(
            self.file_index@,
            self@.unlinked(name@).reverse(),
            EdgeKind::Calls,
        ));
        edges
    }

    /// Links the callers of a defined name that are not linked yet to the node of its last
    /// definition.
    fn resolve_name(&mut self, name: &str)
        requires
            old(self).wf(),
            old(self)@.defines(name@),
            old(self).unresolved_index@.contains_key(name@),
            old(self)@.resolve_only(set![name@]).fits(),
        ensures
            final(self).wf(),
            final(self)@ == old(self)@.resolve_only(set![name@]),
            final(self).unresolved_names == old(self).unresolved_names,
    {
        let ghost before = *self;
        let ghost after = before@.resolve_only(set![name@]);
        proof {
            assert(before@.resolved.contains_key(name@));
            assert(before.symbol_index@.contains_key(name@));
        }
        let callers = self.unlinked_calls(name);
        let symbol = *self.symbol_index.get(name).unwrap();
        proof {
            let last = call_graph::last_mention(before@.definitions, name@);
            let listed = call_graph::distinct_names(before@.calls);
            let unlinked = before@.unlinked(name@);
            let linked = before@.resolved[name@].len() as int;
            call_graph::lemma_last_mention(before@.definitions, name@);
            assert(symbol == before.symbol_nodes@[last]);
            before.lemma_caller_files(name@);
            assert forall|i: int| 0 <= i < callers.len() implies before.nodes().contains_key(
                (#[trigger] callers[i]).0,
            ) by {
                let file = unlinked.reverse()[i];
                assert(file == before@.callers(name@)[linked + callers.len() - 1 - i]);
                assert(before@.files.contains(file));
                assert(before.file_index@.contains_key(file));
            }
            lemma_linked(before.file_index@, unlinked);
            call_graph::lemma_distinct_names(before@.calls);
            assert(set![name@] =~= Set::empty().insert(name@));
            call_graph::lemma_unlinked_none(before@, listed);
            call_graph::lemma_unlinked_insert(before@, listed, Set::empty(), name@);
        }
        link_callers(&mut self.graph, &callers, symbol);
        self.model = Ghost(after);
        proof {
            call_graph::lemma_resolve_only_keeps_valid(before@, set![name@]);
            assert forall|other: usize| other != symbol implies #[trigger] self.incoming()[other]
                == before.incoming()[other] by {
            }
            assert(before.nodes()[symbol] is Symbol);
            assert(self.wf_files());
            assert(self.wf_calls());
            assert(self.wf_imports()) by {
                assert forall|i: int| 0 <= i < self.import_nodes@.len() implies {
                    let other = #[trigger] self.import_nodes@[i];
                    &&& before.nodes().contains_key(other)
                    &&& other != symbol
                } by {
                    assert(before.import_nodes@[i] == self.import_nodes@[i]);
                    assert(before.nodes()[before.import_nodes@[i]] is Module);
                }
            }
            assert(self.wf_definitions()) by {
                assert forall|i: int| 0 <= i < self.symbol_nodes@.len() implies {
                    let node = #[trigger] self.symbol_nodes@[i];
                    &&& before.nodes().contains_key(node)
                    &&& self.incoming()[node].len() > 0
                    &&& self.incoming()[node].last() == before.incoming()[node].last()
                } by {
                    assert(before.symbol_nodes@[i] == self.symbol_nodes@[i]);
                }
            }
            assert forall|defined: Seq<char>|
                {
                    &&& #[trigger] self.symbol_index@.contains_key(defined)
                        <==> self@.resolved.contains_key(defined)
                    &&& self.symbol_index@.contains_key(defined) ==> {
                        let last = call_graph::last_mention(self@.definitions, defined);
                        let node = self.symbol_index@[defined];
                        &&& node == self.symbol_nodes@[last]
                        &&& self.incoming()[node] == links(
                            self.file_index@,
                            self@.resolved[defined],
                            EdgeKind::CallsResolved,
                        ).push((self.file_index@[self@.definitions[last].0], EdgeKind::Defines))
                    }
                } by {
                assert(before.symbol_index@.contains_key(defined)
                    <==> before@.resolved.contains_key(defined));
                if before.symbol_index@.contains_key(defined) {
                    call_graph::lemma_last_mention(before@.definitions, defined);
                    let last = call_graph::last_mention(before@.definitions, defined);
                    let node = self.symbol_index@[defined];
                    if defined == name@ {
                        assert(self.incoming()[node] =~= links(
                            self.file_index@,
                            self@.resolved[defined],
                            EdgeKind::CallsResolved,
                        ).push((self.file_index@[self@.definitions[last].0], EdgeKind::Defines)));
                    } else {
                        let mine = call_graph::last_mention(before@.definitions, name@);
                        call_graph::lemma_last_mention(before@.definitions, name@);
                        assert(before@.defines(defined));
                        assert(before@.definitions[last].1 == defined);
                        assert(last != mine);
                        assert(node != symbol);
                    }
                }
            }
            assert(self.wf_symbols());
            assert(self.incoming().dom() =~= self.nodes().dom());
            assert(self.wf_counts());
        }
    }

    /// Resolves the recorded calls: links each file that calls a defined name to the last
    /// definition of that name, once for each call. A call that is linked already is not linked
    /// again.
    ///
    /// The underlying graph holds at most `u32::MAX` edges; see `has_room_to_resolve`.
    pub fn resolve_calls(&mut self)
        requires
            old(self).wf(),
            old(self)@.resolve().fits(),
        ensures
            final(self).wf(),
            final(self)@ == old(self)@.resolve(),
    {
        let ghost start = self@;
        let ghost names = call_graph::distinct_names(start.calls);
        let ghost mut done = Set::<Seq<char>>::empty();
        proof {
            call_graph::lemma_distinct_names(start.calls);
            call_graph::lemma_resolve_ends(start, done);
        }
        let mut i: usize = 0;
        while i < self.unresolved_names.len()
            invariant
                self.wf(),
                start.valid(),
                start.resolve().fits(),
                self@ == start.resolve_only(done),
                names == call_graph::distinct_names(start.calls),
                types::string_views(self.unresolved_names@) == names,
                names.no_duplicates(),
                0 <= i <= names.len(),
                forall|name: Seq<char>| #[trigger]
                    done.contains(name) <==> names.take(i as int).contains(name),
            decreases self.unresolved_names.len() - i,
        {
            let name = self.unresolved_names[i].clone();
            proof {
                assert(name@ == names[i as int]);
                if done.contains(name@) {
                    let k = choose|k: int|
                        0 <= k < names.take(i as int).len() && names.take(i as int)[k] == name@;
                    assert(names[k] == name@);
                }
                call_graph::lemma_resolve_next(start, done, name@);
                assert(self@.defines(name@) <==> start.defines(name@));
                assert(names.contains(names[i as int]));
                assert(self@.resolved.contains_key(name@) <==> self@.defines(name@));
            }
            if self.symbol_index.contains_key(name.as_str()) {
                self.resolve_name(name.as_str());
            }
            proof {
                lemma_take_next(names, i as int, done);
                done = done.insert(name@);
            }
            i += 1;
        }
        proof {
            assert(names.take(i as int) =~= names);
            call_graph::lemma_resolve_ends(start, done);
        }
    }

    /// Whether the underlying graph can take the data of a file.
    pub fn has_room_for(
        &self,
        file_path: &str,
        symbols: &[ParsedSymbol],
        calls: &[String],
        imports: &[String],
    ) -> (room: bool)
        requires
            self.wf(),
        ensures
            room == self@.add_file(
                file_path@,
                call_graph::names_of(types::symbol_views(symbols@)),
                types::string_views(calls@),
                types::string_views(imports@),
            ).fits(),
    {
        let ghost known = self@.calls;
        let ghost new = call_graph::mentions(file_path@, types::string_views(calls@));
        let mut seen: StringHashMap<bool> = StringHashMap::new();
        let mut new_callees: u128 = 0;
        let mut i: usize = 0;
        assert(known + new.take(0) =~= known);
        while i < calls.len()
            invariant
                0 <= i <= calls.len(),
                self.wf(),
                known == self@.calls,
                new == call_graph::mentions(file_path@, types::string_views(calls@)),
                new_callees <= i,
                call_graph::distinct_names(known).len() + new_callees
                    == call_graph::distinct_names(known + new.take(i as int)).len(),
                forall|name: Seq<char>| #[trigger]
                    call_graph::distinct_names(known + new.take(i as int)).contains(name)
                        <==> self.unresolved_index@.contains_key(name)
                        || seen@.contains_key(name),
            decreases calls.len() - i,
        {
            let callee = &calls[i];
            let ghost before = call_graph::distinct_names(known + new.take(i as int));
            proof {
                assert(known + new.take(i as int + 1) =~= (known + new.take(i as int)).push(
                    (file_path@, callee@),
                ));
                call_graph::lemma_distinct_names_push(
                    known + new.take(i as int),
                    (file_path@, callee@),
                );
            }
            if !self.unresolved_index.contains_key(callee.as_str()) && !seen.contains_key(
                callee.as_str(),
            ) {
                seen.insert(callee.clone(), true);
                new_callees = new_callees + 1;
                proof {
                    let after = call_graph::distinct_names(known + new.take(i as int + 1));
                    assert(after == before.push(callee@));
                    assert forall|name: Seq<char>| #[trigger]
                        after.contains(name) <==> before.contains(name) || name == callee@ by {
                        if before.contains(name) {
                            let k = choose|k: int| 0 <= k < before.len() && before[k] == name;
                            assert(after[k] == name);
                        }
                        assert(after[before.len() as int] == callee@);
                    }
                }
            }
            i += 1;
        }
        assert(new.take(i as int) =~= new);
        let new_files: u128 = if self.file_index.contains_key(file_path) {
            0
        } else {
            1
        };
        let nodes: u128 = digraph::node_count(&self.graph) as u128 + new_files
            + symbols.len() as u128 + new_callees + imports.len() as u128;
        let edges: u128 = digraph::edge_count(&self.graph) as u128 + symbols.len() as u128
            + calls.len() as u128 + imports.len() as u128;
        nodes <= u32::MAX as u128 && edges <= u32::MAX as u128
    }

    /// Whether the underlying graph can take the links that `resolve_calls` adds.
    pub fn has_room_to_resolve(&self) -> (room: bool)
        requires
            self.wf(),
        ensures
            room == self@.resolve().fits(),
    {
        let ghost names = call_graph::distinct_names(self@.calls);
        let ghost all = Set::<Seq<char>>::full();
        let mut new_links: u128 = 0;
        let mut i: usize = 0;
        while i < self.unresolved_names.len()
            invariant
                self.wf(),
                names == call_graph::distinct_names(self@.calls),
                all == Set::<Seq<char>>::full(),
                types::string_views(self.unresolved_names@) == names,
                0 <= i <= names.len(),
                new_links == self@.unlinked_count(names.take(i as int), all),
                new_links <= i * u32::MAX,
            decreases self.unresolved_names.len() - i,
        {
            let name = &self.unresolved_names[i];
            proof {
                assert(name@ == names[i as int]);
                assert(names.contains(names[i as int]));
                assert(names.take(i as int + 1).drop_last() =~= names.take(i as int));
                assert(self@.resolved.contains_key(name@) <==> self@.defines(name@));
                call_graph::lemma_mentioning_bound(self@.calls, name@);
            }
            if self.symbol_index.contains_key(name.as_str()) {
                let callers = self.unlinked_calls(name.as_str());
                new_links = new_links + callers.len() as u128;
            }
            i += 1;
        }
        assert(names.take(i as int) =~= names);
        digraph::edge_count(&self.graph) as u128 + new_links <= u32::MAX as u128
    }

    /// The call graph context for a symbol: where it is defined and who calls it.
    pub fn get_symbol_context(&self, symbol_name: &str) -> (context: GraphContext)
        requires
            self.wf(),
        ensures
            context@ == self@.context(symbol_name@),
    {
        let node = match self.symbol_index.get(symbol_name) {
            Some(node) => *node,
            None => {
                let context = GraphContext {
                    symbol: symbol_name.to_string(),
                    defined_in: Vec::new(),
                    called_by: Vec::new(),
                };
                assert(!self@.resolved.contains_key(symbol_name@));
                assert(context@ =~= self@.context(symbol_name@));
                return context;
            },
        };
        let ghost last = call_graph::last_mention(self@.definitions, symbol_name@);
        proof {
            assert(self@.resolved.contains_key(symbol_name@));
            call_graph::lemma_last_mention(self@.definitions, symbol_name@);
            assert(self.nodes().contains_key(self.symbol_nodes@[last]));
        }
        let edges = digraph::incoming_edges(&self.graph, node);
        proof {
            let file = self@.definitions[last].0;
            let callers = self@.resolved[symbol_name@];
            assert(self@.files.contains(file));
            assert(self.file_index@.contains_key(file));
            self.lemma_resolved_files(symbol_name@);
            assert forall|i: int| 0 <= i < callers.len() implies self.is_file_node(
                self.file_index@[#[trigger] callers[i]],
                callers[i],
            ) by {
                assert(self.file_index@.contains_key(callers[i]));
            }
            self.lemma_source_files(callers, file);
            assert forall|i: int| 0 <= i < edges.len() implies self.nodes().contains_key(
                (#[trigger] edges[i]).0,
            ) by {
                if i < callers.len() {
                    assert(self.is_file_node(self.file_index@[callers[i]], callers[i]));
                }
            }
        }
        let defined_in = self.source_files(&edges, EdgeKind::Defines);
        let called_by = self.source_files(&edges, EdgeKind::CallsResolved);
        GraphContext { symbol: symbol_name.to_string(), defined_in, called_by }
    }

    /// The files from which the edges of a kind come.
    fn source_files(&self, edges: &Vec<(usize, EdgeKind)>, kind: EdgeKind) -> (files: Vec<String>)
        requires
            forall|i: int|
                0 <= i < edges.len() ==> self.nodes().contains_key((#[trigger] edges[i]).0),
        ensures
            types::string_views(files@) == source_files(self.nodes(), edges@, kind),
    {
        let mut files: Vec<String> = Vec::new();
        let mut i: usize = 0;
        assert(types::string_views(files@) =~= source_files(self.nodes(), edges@.take(0), kind));
        while i < edges.len()
            invariant
                0 <= i <= edges.len(),
                forall|k: int|
                    0 <= k < edges.len() ==> self.nodes().contains_key((#[trigger] edges[k]).0),
                types::string_views(files@) == source_files(
                    self.nodes(),
                    edges@.take(i as int),
                    kind,
                ),
            decreases edges.len() - i,
        {
            let (source, found) = edges[i];
            assert(edges@.take(i as int + 1).drop_last() =~= edges@.take(i as int));
            assert(edges[i as int].0 == source);
            let ghost before = files@;
            if found == kind {
                if let NodeData::File { path } = digraph::node_data(&self.graph, source) {
                    files.push(path.clone());
                    assert(types::string_views(files@) =~= types::string_views(before).push(path@));
                }
            }
            i += 1;
        }
        assert(edges@.take(i as int) =~= edges@);
        files
    }

    /// Whether a node is that of a file.
    spec fn is_file_node(self, node: usize, file: Seq<char>) -> bool {
        &&& self.nodes().contains_key(node)
        &&& self.nodes()[node] matches NodeData::File { path }
        &&& path@ == file
    }

    /// What is read back from the edges at the node of a definition.
    proof fn lemma_source_files(self, callers: Seq<Seq<char>>, file: Seq<char>)
        requires
            self.is_file_node(self.file_index@[file], file),
            forall|i: int|
                0 <= i < callers.len() ==> self.is_file_node(
                    self.file_index@[#[trigger] callers[i]],
                    callers[i],
                ),
        ensures
            source_files(
                self.nodes(),
                links(self.file_index@, callers, EdgeKind::CallsResolved).push(
                    (self.file_index@[file], EdgeKind::Defines),
                ),
                EdgeKind::Defines,
            ) == seq![file],
            source_files(
                self.nodes(),
                links(self.file_index@, callers, EdgeKind::CallsResolved).push(
                    (self.file_index@[file], EdgeKind::Defines),
                ),
                EdgeKind::CallsResolved,
            ) == callers,
    {
        let edges = links(self.file_index@, callers, EdgeKind::CallsResolved);
        let all = edges.push((self.file_index@[file], EdgeKind::Defines));
        assert(all.drop_last() =~= edges);
        self.lemma_caller_source_files(callers);
        assert(source_files(self.nodes(), all, EdgeKind::Defines) =~= seq![file]);
    }

    proof fn lemma_caller_source_files(self, callers: Seq<Seq<char>>)
        requires
            forall|i: int|
                0 <= i < callers.len() ==> self.is_file_node(
                    self.file_index@[#[trigger] callers[i]],
                    callers[i],
                ),
        ensures
            source_files(
                self.nodes(),
                links(self.file_index@, callers, EdgeKind::CallsResolved),
                EdgeKind::Defines,
            ) == Seq::<Seq<char>>::empty(),
            source_files(
                self.nodes(),
                links(self.file_index@, callers, EdgeKind::CallsResolved),
                EdgeKind::CallsResolved,
            ) == callers,
        decreases callers.len(),
    {
        let edges = links(self.file_index@, callers, EdgeKind::CallsResolved);
        if callers.len() == 0 {
            assert(callers =~= Seq::empty());
        } else {
            let rest = callers.drop_last();
            assert(edges.drop_last() =~= links(self.file_index@, rest, EdgeKind::CallsResolved));
            assert forall|i: int| 0 <= i < rest.len() implies self.is_file_node(
                self.file_index@[#[trigger] rest[i]],
                rest[i],
            ) by {
                assert(rest[i] == callers[i]);
            }
            self.lemma_caller_source_files(rest);
            let last = callers[callers.len() - 1];
            assert(self.is_file_node(self.file_index@[last], last));
            assert(callers =~= rest.push(last));
        }
    }

    /// The callers linked to a name are files with nodes.
    proof fn lemma_resolved_files(self, name: Seq<char>)
        requires
            self@.valid(),
            self@.resolved.contains_key(name),
        ensures
            forall|i: int|
                0 <= i < self@.resolved[name].len() ==> self@.files.contains(
                    #[trigger] self@.resolved[name][i],
                ),
    {
        self.lemma_caller_files(name);
        assert forall|i: int| 0 <= i < self@.resolved[name].len() implies self@.files.contains(
            #[trigger] self@.resolved[name][i],
        ) by {
            let file = self@.resolved[name][i];
            assert(self@.resolved[name].contains(file));
            call_graph::lemma_linked_caller(self@, name, file);
            let k = choose|k: int|
                0 <= k < self@.callers(name).len() && self@.callers(name)[k] == file;
            assert(self@.callers(name)[k] == file);
        }
    }

    /// The callers of a name are files with nodes.
    proof fn lemma_caller_files(self, name: Seq<char>)
        requires
            self@.valid(),
        ensures
            forall|i: int|
                0 <= i < self@.callers(name).len() ==> self@.files.contains(
                    #[trigger] self@.callers(name)[i],
                ),
    {
        assert forall|i: int| 0 <= i < self@.callers(name).len() implies self@.files.contains(
            #[trigger] self@.callers(name)[i],
        ) by {
            let file = self@.callers(name)[i];
            assert(self@.callers(name).contains(file));
            call_graph::lemma_mentioning_contains(self@.calls, name, file);
            let k = choose|k: int| 0 <= k < self@.calls.len() && self@.calls[k] == (file, name);
            assert(self@.calls[k].0 == file);
        }
    }
}

/// The files among the sources of the edges of a kind.
spec fn source_files(
    nodes: Map<usize, NodeData>,
    edges: Seq<(usize, EdgeKind)>,
    kind: EdgeKind,
) -> Seq<Seq<char>>
    decreases edges.len(),
{
    if edges.len() == 0 {
        Seq::empty()
    } else {
        let rest = source_files(nodes, edges.drop_last(), kind);
        let (source, found) = edges.last();
        match nodes[source] {
            NodeData::File { path } if found == kind => rest.push(path@),
            _ => rest,
        }
    }
}

/// What the names before the next position hold, with the name at that position.
proof fn lemma_take_next(names: Seq<Seq<char>>, i: int, done: Set<Seq<char>>)
    requires
        0 <= i < names.len(),
        forall|name: Seq<char>| #[trigger] done.contains(name) <==> names.take(i).contains(name),
    ensures
        forall|name: Seq<char>| #[trigger]
            done.insert(names[i]).contains(name) <==> names.take(i + 1).contains(name),
{
    let before = names.take(i);
    let after = names.take(i + 1);
    assert forall|name: Seq<char>| #[trigger]
        done.insert(names[i]).contains(name) <==> after.contains(name) by {
        if before.contains(name) {
            let k = choose|k: int| 0 <= k < before.len() && before[k] == name;
            assert(after[k] == name);
        }
        assert(after[i] == names[i]);
        if after.contains(name) && name != names[i] {
            let k = choose|k: int| 0 <= k < after.len() && after[k] == name;
            assert(before[k] == name);
        }
    }
}

/// The edges that link the sources of those edges that are calls, the source of the last edge
/// first.
spec fn linked(edges: Seq<(usize, EdgeKind)>) -> Seq<(usize, EdgeKind)>
    decreases edges.len(),
{
    if edges.len() == 0 {
        Seq::empty()
    } else if edges.last().1 is Calls {
        seq![(edges.last().0, EdgeKind::CallsResolved)] + linked(edges.drop_last())
    } else {
        linked(edges.drop_last())
    }
}

/// The edges at the node of a callee list its callers from the last to the first; linking them
/// one by one restores the order.
proof fn lemma_linked(file_index: Map<Seq<char>, usize>, callers: Seq<Seq<char>>)
    ensures
        linked(links(file_index, callers.reverse(), EdgeKind::Calls)) == links(
            file_index,
            callers,
            EdgeKind::CallsResolved,
        ),
    decreases callers.len(),
{
    let edges = links(file_index, callers.reverse(), EdgeKind::Calls);
    let wanted = links(file_index, callers, EdgeKind::CallsResolved);
    if callers.len() == 0 {
        assert(linked(edges) =~= wanted);
    } else {
        let rest = callers.drop_first();
        lemma_linked(file_index, rest);
        assert(edges.drop_last() =~= links(file_index, rest.reverse(), EdgeKind::Calls));
        assert(edges.last() == (file_index[callers[0]], EdgeKind::Calls));
        assert(linked(edges) =~= wanted);
    }
}

proof fn lemma_linked_push(edges: Seq<(usize, EdgeKind)>, i: int)
    requires
        0 <= i < edges.len(),
    ensures
        linked(edges.take(i + 1)) == if edges[i].1 is Calls {
            seq![(edges[i].0, EdgeKind::CallsResolved)] + linked(edges.take(i))
        } else {
            linked(edges.take(i))
        },
        linked(edges.take(i)).len() <= i,
    decreases i,
{
    assert(edges.take(i + 1).drop_last() =~= edges.take(i));
    if i > 0 {
        lemma_linked_push(edges, i - 1);
    }
}

proof fn lemma_linked_grows(edges: Seq<(usize, EdgeKind)>, i: int)
    requires
        0 <= i <= edges.len(),
    ensures
        linked(edges.take(i)).len() <= linked(edges).len(),
    decreases edges.len() - i,
{
    if i < edges.len() {
        lemma_linked_push(edges, i);
        lemma_linked_grows(edges, i + 1);
    } else {
        assert(edges.take(i) =~= edges);
    }
}

/// Links the sources of those edges that are calls to the target.
fn link_callers(
    graph: &mut StableDiGraph<NodeData, EdgeKind>,
    edges: &Vec<(usize, EdgeKind)>,
    target: usize,
)
    requires
        digraph::graph_nodes(*old(graph)).contains_key(target),
        digraph::graph_incoming(*old(graph)).contains_key(target),
        forall|i: int|
            0 <= i < edges.len() ==> digraph::graph_nodes(*old(graph)).contains_key(
                (#[trigger] edges[i]).0,
            ),
        digraph::graph_edge_count(*old(graph)) + linked(edges@).len() <= u32::MAX,
    ensures
        digraph::graph_nodes(*final(graph)) == digraph::graph_nodes(*old(graph)),
        digraph::graph_incoming(*final(graph)) == digraph::graph_incoming(*old(graph)).insert(
            target,
            linked(edges@) + digraph::graph_incoming(*old(graph))[target],
        ),
        digraph::graph_edge_count(*final(graph)) == digraph::graph_edge_count(*old(graph)) + linked(
            edges@,
        ).len(),
{
    let ghost start = *graph;
    let ghost incoming = digraph::graph_incoming(start);
    assert(linked(edges@.take(0)) + incoming[target] =~= incoming[target]);
    assert(digraph::graph_incoming(*graph) =~= incoming.insert(
        target,
        linked(edges@.take(0)) + incoming[target],
    ));
    let mut i: usize = 0;
    while i < edges.len()
        invariant
            0 <= i <= edges.len(),
            incoming == digraph::graph_incoming(start),
            digraph::graph_nodes(start).contains_key(target),
            forall|k: int|
                0 <= k < edges.len() ==> digraph::graph_nodes(start).contains_key(
                    (#[trigger] edges[k]).0,
                ),
            digraph::graph_edge_count(start) + linked(edges@).len() <= u32::MAX,
            digraph::graph_nodes(*graph) == digraph::graph_nodes(start),
            digraph::graph_incoming(*graph) == incoming.insert(
                target,
                linked(edges@.take(i as int)) + incoming[target],
            ),
            digraph::graph_edge_count(*graph) == digraph::graph_edge_count(start) + linked(
                edges@.take(i as int),
            ).len(),
        decreases edges.len() - i,
    {
        let (source, kind) = edges[i];
        proof {
            lemma_linked_push(edges@, i as int);
            lemma_linked_grows(edges@, i as int + 1);
            assert(edges[i as int].0 == source);
        }
        if kind == EdgeKind::Calls {
            digraph::add_edge(graph, source, target, EdgeKind::CallsResolved);
            assert(seq![(source, EdgeKind::CallsResolved)] + (linked(edges@.take(i as int))
                + incoming[target]) =~= linked(edges@.take(i as int + 1)) + incoming[target]);
            assert(digraph::graph_incoming(*graph) =~= incoming.insert(
                target,
                linked(edges@.take(i as int + 1)) + incoming[target],
            ));
        }
        i += 1;
    }
    assert(edges@.take(i as int) =~= edges@);
}

/// Files that had nodes before keep their edges when other files get nodes.
proof fn lemma_links_same(
    before: Map<Seq<char>, usize>,
    after: Map<Seq<char>, usize>,
    files: Seq<Seq<char>>,
    kind: EdgeKind,
)
    requires
        forall|i: int| 0 <= i < files.len() ==> before[#[trigger] files[i]] == after[files[i]],
    ensures
        links(before, files, kind) == links(after, files, kind),
{
    assert(links(before, files, kind) =~= links(after, files, kind));
}

/// Every well-formed engine holds a valid call graph, one that the underlying graph can hold: what
/// the laws of the call graph say of valid ones is so of every engine.
pub proof fn law_engine_holds_a_valid_call_graph(engine: CallGraphEngine)
    requires
        engine.wf(),
    ensures
        engine@.valid(),
        engine@.fits(),
{
}

} // verus!
