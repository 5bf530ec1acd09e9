//! The schema registry.
//!
//! Each record type registers a [`CollectionDescriptor`]: its collection
//! name, its index (primary-key) field, whether it is a data subject, and
//! its owned-by declarations.  Registration validates the descriptor,
//! forwards every owned-by triple to the ownership graph as an edge, and
//! records the collection's index field for the cascade engine's lookups.
//! A descriptor that fails validation, or whose edges would close a cycle,
//! changes nothing.

use vstd::prelude::*;
use crate::graph::{
    GraphError, GraphModel, OwnEdge, OwnershipGraph, append_if_missing, graph_acyclic,
    spec_add_edge,
};
use crate::model::str_eq;

verus! {

/// The semantic type of an index field: what kind of key value the store
/// compares on.
#[derive(Clone, Copy)]
pub enum IndexFieldType {
    Integer,
    Text,
    Uuid,
    Boolean,
}

/// One owned-by declaration: this collection's `local_field` holds the
/// `owner_key_field` of a record in `owner_collection`.
pub struct OwnedBy {
    pub owner_collection: String,
    pub owner_key_field: String,
    pub local_field: String,
}

/// The mathematical value of an owned-by declaration.
pub struct OwnedByModel {
    pub owner_collection: Seq<char>,
    pub owner_key_field: Seq<char>,
    pub local_field: Seq<char>,
}

impl View for OwnedBy {
    type V = OwnedByModel;

    open spec fn view(&self) -> OwnedByModel {
        OwnedByModel {
            owner_collection: self.owner_collection@,
            owner_key_field: self.owner_key_field@,
            local_field: self.local_field@,
        }
    }
}

/// Everything one record type declares about itself.
pub struct CollectionDescriptor {
    pub collection_name: String,
    pub index_field_name: String,
    pub index_field_type: IndexFieldType,
    pub is_data_subject: bool,
    pub owned_by_edges: Vec<OwnedBy>,
}

/// The mathematical value of a descriptor.
pub struct DescriptorModel {
    pub collection_name: Seq<char>,
    pub index_field_name: Seq<char>,
    pub index_field_type: IndexFieldType,
    pub is_data_subject: bool,
    pub owned_by_edges: Seq<OwnedByModel>,
}

impl View for CollectionDescriptor {
    type V = DescriptorModel;

    open spec fn view(&self) -> DescriptorModel {
        DescriptorModel {
            collection_name: self.collection_name@,
            index_field_name: self.index_field_name@,
            index_field_type: self.index_field_type,
            is_data_subject: self.is_data_subject,
            owned_by_edges: self.owned_by_edges@.map_values(|o: OwnedBy| o@),
        }
    }
}

/// Rejected registrations: configuration errors, fatal at startup.
#[derive(Debug)]
pub enum SchemaError {
    /// The descriptor names no collection.
    MissingCollectionName,
    /// The descriptor names no index field.
    MissingIndexField,
    /// A data subject declared owned-by edges, or a non-subject declared
    /// none, or an owned-by triple left its owner collection or owner key
    /// field empty.
    InvalidOwnershipDeclaration,
    /// An owned-by edge would have closed a directed ownership cycle.
    OwnershipCycle { from: String, to: String },
}

/// The names of the schema annotations a record type can carry.
pub enum SchemaAnnotations {
    OwnedBy,
    Index,
    CollectionName,
    DataSubject,
}

impl SchemaAnnotations {
    /// The spelling of this annotation.
    pub open spec fn spec_str(&self) -> Seq<char> {
        match self {
            SchemaAnnotations::Index => "index"@,
            SchemaAnnotations::OwnedBy => "owned_by"@,
            SchemaAnnotations::CollectionName => "collection"@,
            SchemaAnnotations::DataSubject => "data_subject"@,
        }
    }

    /// The spelling of this annotation, as source text.
    pub fn as_str(&self) -> (r: &'static str)
        ensures
            r@ == self.spec_str(),
    {
        match self {
            SchemaAnnotations::Index => "index",
            SchemaAnnotations::OwnedBy => "owned_by",
            SchemaAnnotations::CollectionName => "collection",
            SchemaAnnotations::DataSubject => "data_subject",
        }
    }
}

/// A well-formed descriptor: named, indexed, with the data-subject rule and
/// non-empty owner references respected.
pub open spec fn valid_descriptor(d: DescriptorModel) -> bool {
    &&& d.collection_name.len() > 0
    &&& d.index_field_name.len() > 0
    &&& (d.is_data_subject ==> d.owned_by_edges.len() == 0)
    &&& (!d.is_data_subject ==> d.owned_by_edges.len() >= 1)
    &&& forall|i: int|
        0 <= i < d.owned_by_edges.len() ==> (#[trigger] d.owned_by_edges[i]).owner_collection.len()
            > 0 && d.owned_by_edges[i].owner_key_field.len() > 0
}

/// The graph after a node for `cn` and one edge per owned-by triple have
/// been inserted, in declaration order.
pub open spec fn spec_register_edges(g: GraphModel, cn: Seq<char>, edges: Seq<OwnedByModel>) -> GraphModel
    decreases edges.len(),
{
    if edges.len() == 0 {
        g
    } else {
        spec_register_edges(
            spec_add_edge(
                g,
                cn,
                edges.first().owner_collection,
                edges.first().owner_key_field,
                edges.first().local_field,
            ),
            cn,
            edges.drop_first(),
        )
    }
}

/// The whole effect of a successful registration on the graph.
pub open spec fn spec_register_graph(g: GraphModel, d: DescriptorModel) -> GraphModel {
    spec_register_edges(
        GraphModel { nodes: append_if_missing(g.nodes, d.collection_name), edges: g.edges },
        d.collection_name,
        d.owned_by_edges,
    )
}

/// Folding one more edge from the right.
proof fn lemma_register_snoc(g: GraphModel, cn: Seq<char>, s: Seq<OwnedByModel>, t: OwnedByModel)
    ensures
        spec_register_edges(g, cn, s.push(t)) == spec_add_edge(
            spec_register_edges(g, cn, s),
            cn,
            t.owner_collection,
            t.owner_key_field,
            t.local_field,
        ),
    decreases s.len(),
{
    let stepped = spec_add_edge(
        spec_register_edges(g, cn, s),
        cn,
        t.owner_collection,
        t.owner_key_field,
        t.local_field,
    );
    if s.len() == 0 {
        assert(s.push(t).drop_first() =~= s);
        assert(s.push(t).first() == t);
        assert(spec_register_edges(g, cn, s) == g);
        assert(spec_register_edges(g, cn, s.push(t)) == spec_register_edges(
            spec_add_edge(g, cn, t.owner_collection, t.owner_key_field, t.local_field),
            cn,
            s.push(t).drop_first(),
        ));
        assert(spec_register_edges(
            spec_add_edge(g, cn, t.owner_collection, t.owner_key_field, t.local_field),
            cn,
            s,
        ) == spec_add_edge(g, cn, t.owner_collection, t.owner_key_field, t.local_field));
    } else {
        let g2 = spec_add_edge(
            g,
            cn,
            s.first().owner_collection,
            s.first().owner_key_field,
            s.first().local_field,
        );
        assert(s.push(t).first() == s.first());
        assert(s.push(t).drop_first() =~= s.drop_first().push(t));
        assert(spec_register_edges(g, cn, s.push(t)) == spec_register_edges(
            g2,
            cn,
            s.drop_first().push(t),
        ));
        lemma_register_snoc(g2, cn, s.drop_first(), t);
        assert(spec_register_edges(g, cn, s) == spec_register_edges(g2, cn, s.drop_first()));
    }
}

/// A cycle survives any further edge insertions.
proof fn lemma_cyclic_stays(g: GraphModel, cn: Seq<char>, s: Seq<OwnedByModel>)
    requires
        !graph_acyclic(g),
    ensures
        !graph_acyclic(spec_register_edges(g, cn, s)),
    decreases s.len(),
{
    if s.len() > 0 {
        let g2 = spec_add_edge(
            g,
            cn,
            s.first().owner_collection,
            s.first().owner_key_field,
            s.first().local_field,
        );
        let p = choose|p: Seq<Seq<char>>|
            #[trigger] crate::graph::is_path(g, p) && p.len() >= 2 && p.first() == p.last();
        crate::graph::lemma_path_push_edge(g, g2, p);
        assert(!graph_acyclic(g2));
        lemma_cyclic_stays(g2, cn, s.drop_first());
    }
}

/// One collection's entry in the index map.
pub struct IndexEntry {
    pub collection: String,
    pub index_field: String,
    pub index_type: IndexFieldType,
}

/// The mathematical value of an index-map entry.
pub struct IndexEntryModel {
    pub collection: Seq<char>,
    pub index_field: Seq<char>,
    pub index_type: IndexFieldType,
}

impl View for IndexEntry {
    type V = IndexEntryModel;

    open spec fn view(&self) -> IndexEntryModel {
        IndexEntryModel {
            collection: self.collection@,
            index_field: self.index_field@,
            index_type: self.index_type,
        }
    }
}

/// The index field recorded for `c`, if any.
pub open spec fn spec_index_field(index: Seq<IndexEntryModel>, c: Seq<char>) -> Option<Seq<char>>
    decreases index.len(),
{
    if index.len() == 0 {
        None
    } else if index.first().collection == c {
        Some(index.first().index_field)
    } else {
        spec_index_field(index.drop_first(), c)
    }
}

/// The index map after recording `e`: an entry for the same collection is
/// replaced, otherwise `e` is appended.
pub open spec fn spec_index_insert(index: Seq<IndexEntryModel>, e: IndexEntryModel) -> Seq<
    IndexEntryModel,
>
    decreases index.len(),
{
    if index.len() == 0 {
        seq![e]
    } else if index.first().collection == e.collection {
        seq![e] + index.drop_first()
    } else {
        seq![index.first()] + spec_index_insert(index.drop_first(), e)
    }
}

/// The mathematical value of the registry: the graph and the index map.
pub struct RegistryModel {
    pub graph: GraphModel,
    pub index: Seq<IndexEntryModel>,
}

/// The process-wide schema registry: the ownership graph plus the
/// collection-to-index-field map, populated once at startup.
pub struct Registry {
    graph: OwnershipGraph,
    index: Vec<IndexEntry>,
}

impl View for Registry {
    type V = RegistryModel;

    closed spec fn view(&self) -> RegistryModel {
        RegistryModel {
            graph: self.graph@,
            index: self.index@.map_values(|e: IndexEntry| e@),
        }
    }
}

impl Registry {
    /// Well formed: the graph is well formed and acyclic, and the index map
    /// holds one entry per collection.
    pub open spec fn wf(&self) -> bool {
        &&& crate::graph::graph_wf(self@.graph)
        &&& graph_acyclic(self@.graph)
        &&& forall|i: int, j: int|
            0 <= i < self@.index.len() && 0 <= j < self@.index.len() && i != j ==> (
            #[trigger] self@.index[i]).collection != (#[trigger] self@.index[j]).collection
    }

    /// An empty registry.
    pub fn new() -> (r: Registry)
        ensures
            r.wf(),
            r@.graph.nodes == Seq::<Seq<char>>::empty(),
            r@.graph.edges == Seq::<crate::graph::EdgeModel>::empty(),
            r@.index == Seq::<IndexEntryModel>::empty(),
    {
        let r = Registry { graph: OwnershipGraph::new(), index: Vec::new() };
        proof {
            assert(r@.index =~= Seq::<IndexEntryModel>::empty());
        }
        r
    }

    /// The ownership graph built so far.
    pub fn graph(&self) -> (g: &OwnershipGraph)
        ensures
            g@ == self@.graph,
            self.wf() ==> g.wf(),
    {
        &self.graph
    }

    /// The index field recorded for `collection`, if any.
    pub fn index_field_of(&self, collection: &str) -> (r: Option<&String>)
        ensures
            match r {
                Some(f) => spec_index_field(self@.index, collection@) == Some(f@),
                None => spec_index_field(self@.index, collection@) is None,
            },
    {
        let n = self.index.len();
        let mut i: usize = 0;
        while i < n
            invariant
                i <= n,
                n == self.index.len(),
                forall|j: int| 0 <= j < i ==> (#[trigger] self@.index[j]).collection != collection@,
            decreases n - i,
        {
            if str_eq(self.index[i].collection.as_str(), collection) {
                proof {
                    lemma_index_skip(self@.index, collection@, i as int);
                    assert(self@.index.skip(i as int).first() == self@.index[i as int]);
                }
                return Some(&self.index[i].index_field);
            }
            i = i + 1;
        }
        proof {
            lemma_index_skip(self@.index, collection@, n as int);
            assert(self@.index.skip(n as int).len() == 0);
        }
        None
    }

    /// Validate `d`, forward its owned-by triples to the graph, and record
    /// its index field.  A rejected descriptor changes nothing; the error
    /// says exactly why it was rejected.
    #[verifier::loop_isolation(false)]
    pub fn register(&mut self, d: &CollectionDescriptor) -> (r: Result<(), SchemaError>)
        requires
            old(self).wf(),
        ensures
            final(self).wf(),
            r is Ok <==> valid_descriptor(d@) && graph_acyclic(
                spec_register_graph(old(self)@.graph, d@),
            ),
            r is Ok ==> final(self)@.graph == spec_register_graph(old(self)@.graph, d@)
                && final(self)@.index == spec_index_insert(
                old(self)@.index,
                IndexEntryModel {
                    collection: d@.collection_name,
                    index_field: d@.index_field_name,
                    index_type: d@.index_field_type,
                },
            ),
            r is Err ==> final(self)@ == old(self)@,
            match r {
                Ok(()) => true,
                Err(SchemaError::MissingCollectionName) => d@.collection_name.len() == 0,
                Err(SchemaError::MissingIndexField) => d@.collection_name.len() > 0
                    && d@.index_field_name.len() == 0,
                Err(SchemaError::InvalidOwnershipDeclaration) => d@.collection_name.len() > 0
                    && d@.index_field_name.len() > 0 && !valid_descriptor(d@),
                Err(SchemaError::OwnershipCycle { from, to }) => valid_descriptor(d@)
                    && !graph_acyclic(spec_register_graph(old(self)@.graph, d@)) && from@
                    == d@.collection_name && (exists|i: int|
                    0 <= i < d@.owned_by_edges.len() && to@ == (
                    #[trigger] d@.owned_by_edges[i]).owner_collection),
            },
    {
        let ghost g_old = self@.graph;
        let ghost index_old = self@.index;
        let ghost cn = d@.collection_name;
        if d.collection_name.as_str().is_empty() {
            return Err(SchemaError::MissingCollectionName);
        }
        if d.index_field_name.as_str().is_empty() {
            return Err(SchemaError::MissingIndexField);
        }
        let n_edges = d.owned_by_edges.len();
        if d.is_data_subject && n_edges > 0 {
            return Err(SchemaError::InvalidOwnershipDeclaration);
        }
        if !d.is_data_subject && n_edges == 0 {
            return Err(SchemaError::InvalidOwnershipDeclaration);
        }
        let mut i: usize = 0;
        while i < n_edges
            invariant
                i <= n_edges,
                n_edges == d.owned_by_edges.len(),
                forall|j: int|
                    0 <= j < i ==> (#[trigger] d@.owned_by_edges[j]).owner_collection.len() > 0
                        && d@.owned_by_edges[j].owner_key_field.len() > 0,
            decreases n_edges - i,
        {
            let t = &d.owned_by_edges[i];
            proof {
                assert(d@.owned_by_edges[i as int] == d.owned_by_edges@[i as int]@);
            }
            if t.owner_collection.as_str().is_empty() || t.owner_key_field.as_str().is_empty() {
                return Err(SchemaError::InvalidOwnershipDeclaration);
            }
            i = i + 1;
        }
        assert(valid_descriptor(d@));
        // replay the descriptor's edges on the graph, rolling back on a cycle
        let snapshot = self.graph.duplicate();
        self.graph.ensure_node(d.collection_name.as_str());
        let ghost g1 = GraphModel {
            nodes: append_if_missing(g_old.nodes, cn),
            edges: g_old.edges,
        };
        proof {
            assert(self@.graph == g1);
        }
        let ghost all = d@.owned_by_edges;
        let mut k: usize = 0;
        while k < n_edges
            invariant
                k <= n_edges,
                n_edges == d.owned_by_edges.len(),
                all == d@.owned_by_edges,
                cn == d@.collection_name,
                valid_descriptor(d@),
                self.graph.wf(),
                self@.graph == spec_register_edges(g1, cn, all.take(k as int)),
                snapshot@ == g_old,
                snapshot.wf(),
                self@.index == index_old,
                g1 == (GraphModel { nodes: append_if_missing(g_old.nodes, cn), edges: g_old.edges }),
            decreases n_edges - k,
        {
            let ghost g_pre = self@.graph;
            let t = &d.owned_by_edges[k];
            proof {
                assert(all[k as int] == d.owned_by_edges@[k as int]@);
            }
            let label = OwnEdge {
                owner_index: t.owner_key_field.clone(),
                owned_field: t.local_field.clone(),
            };
            let res = self.graph.add_edge(
                d.collection_name.as_str(),
                t.owner_collection.as_str(),
                label,
            );
            proof {
                assert(all.take(k + 1) =~= all.take(k as int).push(all[k as int]));
                lemma_register_snoc(g1, cn, all.take(k as int), all[k as int]);
            }
            match res {
                Ok(()) => {},
                Err(GraphError::CycleDetected { from, to }) => {
                    proof {
                        let failed = spec_register_edges(g1, cn, all.take(k + 1));
                        lemma_register_split(g1, cn, all.take(k + 1), all.skip(k + 1));
                        assert(all.take(k + 1) + all.skip(k + 1) =~= all);
                        lemma_cyclic_stays(failed, cn, all.skip(k + 1));
                        assert(!graph_acyclic(spec_register_graph(g_old, d@)));
                    }
                    self.graph = snapshot;
                    assert(self@ == old(self)@) by {
                        assert(self@.graph == g_old);
                        assert(self@.index == index_old);
                    }
                    return Err(SchemaError::OwnershipCycle { from, to });
                },
            }
            k = k + 1;
        }
        proof {
            assert(all.take(n_edges as int) =~= all);
            if n_edges == 0 {
                crate::graph::lemma_same_edges_acyclic(g_old, g1);
            }
            assert(graph_acyclic(self@.graph));
        }
        self.index_insert_entry(
            IndexEntry {
                collection: d.collection_name.clone(),
                index_field: d.index_field_name.clone(),
                index_type: d.index_field_type,
            },
        );
        Ok(())
    }

    /// Record `e` in the index map, replacing any entry for the same
    /// collection.
    #[verifier::loop_isolation(false)]
    fn index_insert_entry(&mut self, e: IndexEntry)
        requires
            forall|i: int, j: int|
                0 <= i < old(self)@.index.len() && 0 <= j < old(self)@.index.len() && i != j ==> (
                #[trigger] old(self)@.index[i]).collection != (
                #[trigger] old(self)@.index[j]).collection,
        ensures
            final(self)@.index == spec_index_insert(old(self)@.index, e@),
            final(self)@.graph == old(self)@.graph,
            forall|i: int, j: int|
                0 <= i < final(self)@.index.len() && 0 <= j < final(self)@.index.len() && i != j
                    ==> (#[trigger] final(self)@.index[i]).collection != (
                #[trigger] final(self)@.index[j]).collection,
    {
        let n = self.index.len();
        let mut i: usize = 0;
        while i < n
            invariant
                i <= n,
                n == self.index.len(),
                self@ == old(self)@,
                forall|j: int| 0 <= j < i ==> (#[trigger] self@.index[j]).collection != e@.collection,
            decreases n - i,
        {
            if str_eq(self.index[i].collection.as_str(), e.collection.as_str()) {
                proof {
                    lemma_index_insert_replace(self@.index, e@, i as int);
                }
                let ghost idx0 = self@.index;
                self.index.set(i, e);
                proof {
                    assert(self@.index =~= idx0.update(i as int, e@));
                    assert forall|a: int, b: int|
                        0 <= a < self@.index.len() && 0 <= b < self@.index.len() && a != b implies (
                        #[trigger] self@.index[a]).collection != (
                        #[trigger] self@.index[b]).collection by {
                        assert(idx0[a].collection != idx0[b].collection);
                        assert(idx0[i as int].collection == e@.collection);
                    }
                }
                return ;
            }
            i = i + 1;
        }
        proof {
            lemma_index_insert_append(self@.index, e@);
        }
        let ghost idx0 = self@.index;
        self.index.push(e);
        proof {
            assert(self@.index =~= idx0.push(e@));
            assert forall|a: int, b: int|
                0 <= a < self@.index.len() && 0 <= b < self@.index.len() && a != b implies (
                #[trigger] self@.index[a]).collection != (#[trigger] self@.index[b]).collection by {
                if a < idx0.len() && b < idx0.len() {
                    assert(idx0[a].collection != idx0[b].collection);
                } else if a == idx0.len() {
                    assert(idx0[b].collection != e@.collection);
                } else {
                    assert(idx0[a].collection != e@.collection);
                }
            }
        }
    }
}

/// Folding over a concatenation folds each part in turn.
proof fn lemma_register_split(g: GraphModel, cn: Seq<char>, a: Seq<OwnedByModel>, b: Seq<OwnedByModel>)
    ensures
        spec_register_edges(g, cn, a + b) == spec_register_edges(
            spec_register_edges(g, cn, a),
            cn,
            b,
        ),
    decreases a.len(),
{
    if a.len() == 0 {
        assert(a + b =~= b);
    } else {
        assert((a + b).first() == a.first());
        assert((a + b).drop_first() =~= a.drop_first() + b);
        lemma_register_split(
            spec_add_edge(
                g,
                cn,
                a.first().owner_collection,
                a.first().owner_key_field,
                a.first().local_field,
            ),
            cn,
            a.drop_first(),
            b,
        );
    }
}

/// Replacing the matching entry realizes `spec_index_insert` when the match
/// sits at position `i`.
proof fn lemma_index_insert_replace(index: Seq<IndexEntryModel>, e: IndexEntryModel, i: int)
    requires
        0 <= i < index.len(),
        forall|j: int| 0 <= j < i ==> (#[trigger] index[j]).collection != e.collection,
        index[i].collection == e.collection,
    ensures
        spec_index_insert(index, e) == index.update(i, e),
    decreases i,
{
    if i == 0 {
        assert(index.first() == index[0]);
        assert(seq![e] + index.drop_first() =~= index.update(0, e));
    } else {
        assert(index.first() == index[0]);
        assert(index[0].collection != e.collection);
        assert(forall|j: int| 0 <= j < i - 1 ==> (#[trigger] index.drop_first()[j]) == index[j + 1]);
        assert(index.drop_first()[i - 1] == index[i]);
        lemma_index_insert_replace(index.drop_first(), e, i - 1);
        assert(seq![index.first()] + index.drop_first().update(i - 1, e) =~= index.update(i, e));
    }
}

/// Appending realizes `spec_index_insert` when no entry matches.
proof fn lemma_index_insert_append(index: Seq<IndexEntryModel>, e: IndexEntryModel)
    requires
        forall|j: int| 0 <= j < index.len() ==> (#[trigger] index[j]).collection != e.collection,
    ensures
        spec_index_insert(index, e) == index.push(e),
    decreases index.len(),
{
    if index.len() == 0 {
        assert(seq![e] =~= index.push(e));
    } else {
        assert(index.first() == index[0]);
        assert(forall|j: int|
            0 <= j < index.drop_first().len() ==> (#[trigger] index.drop_first()[j]) == index[j
                + 1]);
        lemma_index_insert_append(index.drop_first(), e);
        assert(seq![index.first()] + index.drop_first().push(e) =~= index.push(e));
    }
}

/// Index lookup ignores a prefix of entries for other collections.
proof fn lemma_index_skip(index: Seq<IndexEntryModel>, c: Seq<char>, i: int)
    requires
        0 <= i <= index.len(),
        forall|j: int| 0 <= j < i ==> (#[trigger] index[j]).collection != c,
    ensures
        spec_index_field(index, c) == spec_index_field(index.skip(i), c),
    decreases i,
{
    if i > 0 {
        assert(index[0].collection != c);
        assert(index.first() == index[0]);
        assert(index.drop_first().skip(i - 1) =~= index.skip(i));
        assert(forall|j: int| 0 <= j < i - 1 ==> (#[trigger] index.drop_first()[j]) == index[j + 1]);
        lemma_index_skip(index.drop_first(), c, i - 1);
    } else {
        assert(index.skip(0) =~= index);
    }
}

} // verus!
