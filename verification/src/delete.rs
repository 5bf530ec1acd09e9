//! The cascade-delete engine.
//!
//! Given a record's collection and index value, the engine walks the
//! ownership graph depth first: for every edge pointing at the current
//! collection it finds the documents owned through that edge, clears each
//! found document's own subtree, bulk-deletes the found documents, and
//! finally deletes the record itself.  Deletion is best effort across the
//! tree: every store call commits independently, and the first failure
//! aborts the rest, so a failed cascade can leave deeper subtrees deleted
//! while higher parts remain.  What is guaranteed, success or failure, is
//! that every document actually deleted had its own owned documents deleted
//! too: no new orphans.

use vstd::prelude::*;
use crate::graph::{
    EdgeModel, GraphEdge, GraphModel, graph_acyclic, is_path, lemma_reaches_self,
    lemma_reaches_then_step, lemma_step_strict, lemma_step_then_reaches, reach_set, reaches,
    spec_edges_incoming, step,
};
use crate::model::{
    FieldValue, FieldValueModel, RecordModel, StoreModel, count_matching, count_occ, deleted_from,
    filter_matching, get_field_spec, lemma_count_occ_member, lemma_filter_count,
    lemma_filter_empty, lemma_no_match_monotone, lemma_remove_count, lemma_remove_first_count,
    lemma_remove_matching_clears, lemma_remove_matching_noop, lemma_store_shrunk_trans, rec_matches, rec_views, remove_first_match, remove_matching,
    seq_shrunk, store_shrunk,
};
use crate::registry::{IndexEntryModel, Registry, spec_index_field};
use crate::store::{DocumentStore, StoreError};

verus! {

/// Deletion failures, surfaced to the caller; the engine never retries.
#[derive(Debug)]
pub enum DeleteError {
    /// The store reported a failure; the cascade stopped there.
    Store(StoreError),
    /// A collection reached by the cascade has no registered index field.
    MissingIndexMapping { collection: String },
    /// A document reached by the cascade lacks its collection's index field.
    MissingIndexField { collection: String },
}

/// `c` lies strictly below `coll`: a cascade from `coll` can reach it
/// through at least one owned-by edge.
pub open spec fn strictly_below(g: GraphModel, c: Seq<char>, coll: Seq<char>) -> bool {
    reaches(g, c, coll) && c != coll
}

/// No document owned through any edge into `coll` by the key `key` remains.
pub open spec fn children_cleared(
    g: GraphModel,
    s: StoreModel,
    coll: Seq<char>,
    key: FieldValueModel,
) -> bool {
    forall|i: int|
        0 <= i < g.edges.len() && (#[trigger] g.edges[i]).owner == coll ==> count_matching(
            s[g.edges[i].owned],
            g.edges[i].owned_field,
            key,
        ) == 0
}

/// The document `x` of collection `c` owns nothing any more: its collection
/// has a registered index field, `x` carries it, and no document owned by
/// that key remains in `s`.
pub open spec fn doc_cleared(
    g: GraphModel,
    index: Seq<IndexEntryModel>,
    s: StoreModel,
    c: Seq<char>,
    x: RecordModel,
) -> bool {
    match spec_index_field(index, c) {
        Some(f) => match get_field_spec(x, f) {
            Some(k) => children_cleared(g, s, c, k),
            None => false,
        },
        None => false,
    }
}

/// Orphan freedom: every document deleted between `s_old` and `s_new` had
/// its own owned documents deleted too.
pub open spec fn no_new_orphans(
    g: GraphModel,
    index: Seq<IndexEntryModel>,
    s_old: StoreModel,
    s_new: StoreModel,
) -> bool {
    forall|c: Seq<char>, x: RecordModel|
        #[trigger] deleted_from(s_old[c], s_new[c], x) ==> doc_cleared(g, index, s_new, c, x)
}

/// Every collection strictly below `coll` has a registered index field, and
/// each of its documents carries that field.
pub open spec fn store_wf_below(
    g: GraphModel,
    index: Seq<IndexEntryModel>,
    s: StoreModel,
    coll: Seq<char>,
) -> bool {
    forall|c: Seq<char>|
        #[trigger] strictly_below(g, c, coll) ==> match spec_index_field(index, c) {
            Some(f) => forall|i: int|
                0 <= i < s[c].len() ==> get_field_spec(#[trigger] s[c][i], f) is Some,
            None => false,
        }
}

/// What a completed `safe_delete` guarantees: collections that cannot reach
/// the record's collection are untouched, the record's collection lost
/// exactly its first index match, the store only shrank, no document owned
/// by the record's key remains, and every other deleted document had its
/// own owned documents deleted too.
pub open spec fn safe_delete_post(
    g: GraphModel,
    index: Seq<IndexEntryModel>,
    s_old: StoreModel,
    s_new: StoreModel,
    coll: Seq<char>,
    f: Seq<char>,
    key: FieldValueModel,
) -> bool {
    &&& forall|c: Seq<char>| !reaches(g, c, coll) ==> #[trigger] s_new[c] == s_old[c]
    &&& s_new[coll] == remove_first_match(s_old[coll], f, key)
    &&& store_shrunk(s_old, s_new)
    &&& children_cleared(g, s_new, coll, key)
    &&& forall|c: Seq<char>, x: RecordModel|
        c != coll && #[trigger] deleted_from(s_old[c], s_new[c], x) ==> doc_cleared(
            g,
            index,
            s_new,
            c,
            x,
        )
    &&& children_cleared(g, s_old, coll, key) ==> forall|c: Seq<char>|
        c != coll ==> #[trigger] s_new[c] == s_old[c]
    &&& forall|c: Seq<char>, x: RecordModel|
        c != coll && #[trigger] deleted_from(s_old[c], s_new[c], x) ==> deletion_owned(
            g,
            index,
            s_old,
            s_new,
            coll,
            key,
            c,
            x,
        )
}

/// Whether `w`'s key, under the edge's owner collection, is what `x`'s
/// foreign-key field holds: `x` is owned by `w` through the edge.
pub open spec fn owner_key_links(
    index: Seq<IndexEntryModel>,
    e: EdgeModel,
    w: RecordModel,
    x: RecordModel,
) -> bool {
    match spec_index_field(index, e.owner) {
        Some(f) => match get_field_spec(w, f) {
            Some(k) => rec_matches(x, e.owned_field, k),
            None => false,
        },
        None => false,
    }
}

/// Whether a sequence holds the document value `w`.
pub open spec fn seq_has(s: Seq<RecordModel>, w: RecordModel) -> bool {
    exists|j: int| 0 <= j < s.len() && s[j] == w
}

/// The deleted document `x` of collection `c` was owned through some edge:
/// directly by the cascade's root key, or by a document that was deleted
/// between `s_old` and `s_new` — or, mid-cascade, by one of the `pending`
/// documents of collection `pc` found and about to be bulk-deleted.
pub open spec fn deletion_owned_with(
    g: GraphModel,
    index: Seq<IndexEntryModel>,
    s_old: StoreModel,
    s_new: StoreModel,
    coll: Seq<char>,
    key: FieldValueModel,
    c: Seq<char>,
    x: RecordModel,
    pending: Seq<RecordModel>,
    pc: Seq<char>,
) -> bool {
    exists|i: int|
        0 <= i < g.edges.len() && (#[trigger] g.edges[i]).owned == c && ((g.edges[i].owner == coll
            && rec_matches(x, g.edges[i].owned_field, key)) || (exists|w: RecordModel|
            (deleted_from(s_old[g.edges[i].owner], s_new[g.edges[i].owner], w) || (g.edges[i].owner
                == pc && seq_has(pending, w))) && #[trigger] owner_key_links(
                index,
                g.edges[i],
                w,
                x,
            )))
}

/// [`deletion_owned_with`] with nothing pending: the completed-cascade form.
pub open spec fn deletion_owned(
    g: GraphModel,
    index: Seq<IndexEntryModel>,
    s_old: StoreModel,
    s_new: StoreModel,
    coll: Seq<char>,
    key: FieldValueModel,
    c: Seq<char>,
    x: RecordModel,
) -> bool {
    deletion_owned_with(
        g,
        index,
        s_old,
        s_new,
        coll,
        key,
        c,
        x,
        Seq::empty(),
        Seq::empty(),
    )
}

/// An ownership trace without pending documents holds under any pending
/// list.
proof fn lemma_owned_weaken(
    g: GraphModel,
    index: Seq<IndexEntryModel>,
    s_old: StoreModel,
    s_new: StoreModel,
    coll: Seq<char>,
    key: FieldValueModel,
    c: Seq<char>,
    x: RecordModel,
    pending: Seq<RecordModel>,
    pc: Seq<char>,
)
    requires
        deletion_owned(g, index, s_old, s_new, coll, key, c, x),
    ensures
        deletion_owned_with(g, index, s_old, s_new, coll, key, c, x, pending, pc),
{
    let i = choose|i: int|
        0 <= i < g.edges.len() && (#[trigger] g.edges[i]).owned == c && ((g.edges[i].owner == coll
            && rec_matches(x, g.edges[i].owned_field, key)) || (exists|w: RecordModel|
            (deleted_from(s_old[g.edges[i].owner], s_new[g.edges[i].owner], w) || (g.edges[i].owner
                == Seq::<char>::empty() && seq_has(Seq::empty(), w))) && #[trigger] owner_key_links(
                index,
                g.edges[i],
                w,
                x,
            )));
    if g.edges[i].owner == coll && rec_matches(x, g.edges[i].owned_field, key) {
    } else {
        let w = choose|w: RecordModel|
            (deleted_from(s_old[g.edges[i].owner], s_new[g.edges[i].owner], w) || (g.edges[i].owner
                == Seq::<char>::empty() && seq_has(Seq::empty(), w))) && #[trigger] owner_key_links(
                index,
                g.edges[i],
                w,
                x,
            );
        assert(deleted_from(s_old[g.edges[i].owner], s_new[g.edges[i].owner], w));
    }
}

/// An ownership trace survives further shrinking of the store.
proof fn lemma_owned_monotone(
    g: GraphModel,
    index: Seq<IndexEntryModel>,
    s_old: StoreModel,
    s1: StoreModel,
    s2: StoreModel,
    coll: Seq<char>,
    key: FieldValueModel,
    c: Seq<char>,
    x: RecordModel,
    pending: Seq<RecordModel>,
    pc: Seq<char>,
)
    requires
        deletion_owned_with(g, index, s_old, s1, coll, key, c, x, pending, pc),
        store_shrunk(s1, s2),
    ensures
        deletion_owned_with(g, index, s_old, s2, coll, key, c, x, pending, pc),
{
    let i = choose|i: int|
        0 <= i < g.edges.len() && (#[trigger] g.edges[i]).owned == c && ((g.edges[i].owner == coll
            && rec_matches(x, g.edges[i].owned_field, key)) || (exists|w: RecordModel|
            (deleted_from(s_old[g.edges[i].owner], s1[g.edges[i].owner], w) || (g.edges[i].owner
                == pc && seq_has(pending, w))) && #[trigger] owner_key_links(
                index,
                g.edges[i],
                w,
                x,
            )));
    if g.edges[i].owner == coll && rec_matches(x, g.edges[i].owned_field, key) {
    } else {
        let w = choose|w: RecordModel|
            (deleted_from(s_old[g.edges[i].owner], s1[g.edges[i].owner], w) || (g.edges[i].owner
                == pc && seq_has(pending, w))) && #[trigger] owner_key_links(index, g.edges[i], w, x);
        if deleted_from(s_old[g.edges[i].owner], s1[g.edges[i].owner], w) {
            assert(seq_shrunk(s1[g.edges[i].owner], s2[g.edges[i].owner]));
            assert(count_occ(s2[g.edges[i].owner], w) <= count_occ(s1[g.edges[i].owner], w));
            assert(deleted_from(s_old[g.edges[i].owner], s2[g.edges[i].owner], w));
        }
    }
}

/// Once every pending document has been deleted, the trace stands on
/// deleted documents alone.
proof fn lemma_owned_resolve(
    g: GraphModel,
    index: Seq<IndexEntryModel>,
    s_old: StoreModel,
    s_new: StoreModel,
    coll: Seq<char>,
    key: FieldValueModel,
    c: Seq<char>,
    x: RecordModel,
    pending: Seq<RecordModel>,
    pc: Seq<char>,
)
    requires
        deletion_owned_with(g, index, s_old, s_new, coll, key, c, x, pending, pc),
        forall|j: int|
            0 <= j < pending.len() ==> deleted_from(s_old[pc], s_new[pc], #[trigger] pending[j]),
    ensures
        deletion_owned(g, index, s_old, s_new, coll, key, c, x),
{
    let i = choose|i: int|
        0 <= i < g.edges.len() && (#[trigger] g.edges[i]).owned == c && ((g.edges[i].owner == coll
            && rec_matches(x, g.edges[i].owned_field, key)) || (exists|w: RecordModel|
            (deleted_from(s_old[g.edges[i].owner], s_new[g.edges[i].owner], w) || (g.edges[i].owner
                == pc && seq_has(pending, w))) && #[trigger] owner_key_links(
                index,
                g.edges[i],
                w,
                x,
            )));
    if g.edges[i].owner == coll && rec_matches(x, g.edges[i].owned_field, key) {
    } else {
        let w = choose|w: RecordModel|
            (deleted_from(s_old[g.edges[i].owner], s_new[g.edges[i].owner], w) || (g.edges[i].owner
                == pc && seq_has(pending, w))) && #[trigger] owner_key_links(index, g.edges[i], w, x);
        if !deleted_from(s_old[g.edges[i].owner], s_new[g.edges[i].owner], w) {
            let j = choose|j: int| 0 <= j < pending.len() && pending[j] == w;
            assert(deleted_from(s_old[pc], s_new[pc], w));
        }
    }
}

/// Lifting a finished child cascade's ownership traces into the parent's:
/// documents the child deleted were owned by the parent's pending document
/// `w`, or by something the child itself deleted.
proof fn lemma_owned_lift_child(
    g: GraphModel,
    index: Seq<IndexEntryModel>,
    s0: StoreModel,
    s_pre: StoreModel,
    s_now: StoreModel,
    coll: Seq<char>,
    key: FieldValueModel,
    cc: Seq<char>,
    dkey: FieldValueModel,
    f: Seq<char>,
    w: RecordModel,
    pending: Seq<RecordModel>,
    c: Seq<char>,
    x: RecordModel,
)
    requires
        deletion_owned(g, index, s_pre, s_now, cc, dkey, c, x),
        store_shrunk(s0, s_pre),
        spec_index_field(index, cc) == Some(f),
        get_field_spec(w, f) == Some(dkey),
        seq_has(pending, w),
    ensures
        deletion_owned_with(g, index, s0, s_now, coll, key, c, x, pending, cc),
{
    let i = choose|i: int|
        0 <= i < g.edges.len() && (#[trigger] g.edges[i]).owned == c && ((g.edges[i].owner == cc
            && rec_matches(x, g.edges[i].owned_field, dkey)) || (exists|w2: RecordModel|
            (deleted_from(s_pre[g.edges[i].owner], s_now[g.edges[i].owner], w2) || (
            g.edges[i].owner == Seq::<char>::empty() && seq_has(Seq::empty(), w2)))
                && #[trigger] owner_key_links(index, g.edges[i], w2, x)));
    if g.edges[i].owner == cc && rec_matches(x, g.edges[i].owned_field, dkey) {
        assert(owner_key_links(index, g.edges[i], w, x));
        assert(g.edges[i].owner == cc && seq_has(pending, w));
    } else {
        let w2 = choose|w2: RecordModel|
            (deleted_from(s_pre[g.edges[i].owner], s_now[g.edges[i].owner], w2) || (
            g.edges[i].owner == Seq::<char>::empty() && seq_has(Seq::empty(), w2)))
                && #[trigger] owner_key_links(index, g.edges[i], w2, x);
        assert(deleted_from(s_pre[g.edges[i].owner], s_now[g.edges[i].owner], w2));
        assert(seq_shrunk(s0[g.edges[i].owner], s_pre[g.edges[i].owner]));
        assert(count_occ(s_pre[g.edges[i].owner], w2) <= count_occ(s0[g.edges[i].owner], w2));
        assert(deleted_from(s0[g.edges[i].owner], s_now[g.edges[i].owner], w2));
    }
}

/// After one edge's bulk delete, the ownership traces stand on deleted
/// documents alone: the bulk-deleted documents trace to the root key, and
/// the pending documents they vouched for are themselves now gone.
proof fn lemma_owned_after_bulk(
    g: GraphModel,
    index: Seq<IndexEntryModel>,
    s0: StoreModel,
    s_bd: StoreModel,
    s_after: StoreModel,
    coll: Seq<char>,
    key: FieldValueModel,
    cc: Seq<char>,
    of: Seq<char>,
    found_views: Seq<RecordModel>,
    i0: int,
    c: Seq<char>,
    x: RecordModel,
)
    requires
        0 <= i0 < g.edges.len(),
        g.edges[i0].owned == cc,
        g.edges[i0].owner == coll,
        g.edges[i0].owned_field == of,
        s_after == s_bd.insert(cc, remove_matching(s_bd[cc], of, key)),
        found_views == filter_matching(s_bd[cc], of, key),
        store_shrunk(s0, s_bd),
        store_shrunk(s_bd, s_after),
        deleted_from(s0[c], s_after[c], x),
        deleted_from(s0[c], s_bd[c], x) ==> deletion_owned_with(
            g,
            index,
            s0,
            s_bd,
            coll,
            key,
            c,
            x,
            found_views,
            cc,
        ),
    ensures
        deletion_owned(g, index, s0, s_after, coll, key, c, x),
{
    if deleted_from(s0[c], s_bd[c], x) {
        lemma_owned_monotone(g, index, s0, s_bd, s_after, coll, key, c, x, found_views, cc);
        assert forall|j: int|
            0 <= j < found_views.len() implies deleted_from(
            s0[cc],
            s_after[cc],
            #[trigger] found_views[j],
        ) by {
            let fj = found_views[j];
            crate::model::lemma_filter_members(s_bd[cc], of, key);
            assert(rec_matches(fj, of, key));
            lemma_count_occ_member(found_views, fj);
            assert(count_occ(found_views, fj) > 0);
            lemma_filter_count(s_bd[cc], of, key, fj);
            assert(count_occ(s_bd[cc], fj) > 0);
            assert(seq_shrunk(s0[cc], s_bd[cc]));
            assert(count_occ(s0[cc], fj) > 0);
            lemma_remove_count(s_bd[cc], of, key, fj);
            assert(count_occ(s_after[cc], fj) == 0);
        }
        lemma_owned_resolve(g, index, s0, s_after, coll, key, c, x, found_views, cc);
    } else {
        // deleted by this very bulk delete, so it matched the root key
        if c != cc {
            assert(s_after[c] == s_bd[c]);
            assert(deleted_from(s0[c], s_bd[c], x));
            assert(false);
        }
        assert(count_occ(s_after[c], x) < count_occ(s0[c], x));
        assert(seq_shrunk(s0[c], s_bd[c]));
        assert(count_occ(s_bd[c], x) <= count_occ(s0[c], x));
        lemma_remove_count(s_bd[cc], of, key, x);
        if !rec_matches(x, of, key) {
            assert(count_occ(s_after[cc], x) == count_occ(s_bd[cc], x));
            assert(deleted_from(s0[c], s_bd[c], x));
            assert(false);
        }
        assert(g.edges[i0].owned == c && g.edges[i0].owner == coll && rec_matches(
            x,
            g.edges[i0].owned_field,
            key,
        ));
    }
}

/// Every edge the incoming list yields has `c` as owner and occurs in the
/// edge sequence; and every edge of the sequence owned by `c` occurs in the
/// list.
proof fn lemma_incoming_edges(edges: Seq<EdgeModel>, c: Seq<char>)
    ensures
        forall|j: int|
            0 <= j < spec_edges_incoming(edges, c).len() ==> (#[trigger] spec_edges_incoming(
                edges,
                c,
            )[j]).owner == c && exists|i: int|
                0 <= i < edges.len() && edges[i] == spec_edges_incoming(edges, c)[j],
        forall|i: int|
            0 <= i < edges.len() && (#[trigger] edges[i]).owner == c ==> exists|j: int|
                0 <= j < spec_edges_incoming(edges, c).len() && spec_edges_incoming(edges, c)[j]
                    == edges[i],
    decreases edges.len(),
{
    if edges.len() > 0 {
        let prev = edges.drop_last();
        lemma_incoming_edges(prev, c);
        let r = spec_edges_incoming(edges, c);
        let rp = spec_edges_incoming(prev, c);
        assert(forall|i: int| 0 <= i < prev.len() ==> #[trigger] prev[i] == edges[i]);
        assert forall|j: int| 0 <= j < r.len() implies (#[trigger] r[j]).owner == c && exists|i: int|
            0 <= i < edges.len() && edges[i] == r[j] by {
            if j < rp.len() {
                assert(r[j] == rp[j]);
                let i = choose|i: int| 0 <= i < prev.len() && prev[i] == rp[j];
                assert(edges[i] == r[j]);
            } else {
                assert(edges.last().owner == c);
                assert(r[j] == edges.last());
                assert(edges[edges.len() - 1] == r[j]);
            }
        }
        assert forall|i: int| 0 <= i < edges.len() && (#[trigger] edges[i]).owner == c implies
            exists|j: int| 0 <= j < r.len() && r[j] == edges[i] by {
            if i < prev.len() {
                let j = choose|j: int| 0 <= j < rp.len() && rp[j] == prev[i];
                assert(r[j] == edges[i]);
            } else {
                assert(r[r.len() - 1] == edges[i]);
            }
        }
    }
}

/// An edge into `coll` puts its owned side strictly below `coll`.
proof fn lemma_child_below(g: GraphModel, cc: Seq<char>, coll: Seq<char>)
    requires
        graph_acyclic(g),
        step(g, cc, coll),
    ensures
        strictly_below(g, cc, coll),
{
    lemma_reaches_self(g, coll);
    lemma_step_then_reaches(g, cc, coll, coll);
    if cc == coll {
        let p = seq![cc, coll];
        assert(p[0] == cc && p[1] == coll);
        assert(forall|i: int| 0 <= i < p.len() - 1 ==> step(g, #[trigger] p[i], p[i + 1]));
        assert(is_path(g, p) && p.len() >= 2 && p.first() == p.last());
        assert(false);
    }
}

/// Strictly-below composes across one more edge.
proof fn lemma_below_step(g: GraphModel, c: Seq<char>, cc: Seq<char>, coll: Seq<char>)
    requires
        graph_acyclic(g),
        strictly_below(g, c, cc),
        step(g, cc, coll),
    ensures
        strictly_below(g, c, coll),
{
    lemma_reaches_then_step(g, c, cc, coll);
    if c == coll {
        let p = choose|p: Seq<Seq<char>>|
            #[trigger] is_path(g, p) && p.len() >= 2 && p.first() == c && p.last() == coll;
        assert(false);
    }
}

/// Cleared children stay cleared while the store only shrinks.
proof fn lemma_children_cleared_monotone(
    g: GraphModel,
    s: StoreModel,
    s2: StoreModel,
    c: Seq<char>,
    k: FieldValueModel,
)
    requires
        children_cleared(g, s, c, k),
        store_shrunk(s, s2),
    ensures
        children_cleared(g, s2, c, k),
{
    assert forall|i: int|
        0 <= i < g.edges.len() && (#[trigger] g.edges[i]).owner == c implies count_matching(
            s2[g.edges[i].owned],
            g.edges[i].owned_field,
            k,
        ) == 0 by {
        assert(seq_shrunk(s[g.edges[i].owned], s2[g.edges[i].owned]));
        lemma_no_match_monotone(
            s[g.edges[i].owned],
            s2[g.edges[i].owned],
            g.edges[i].owned_field,
            k,
        );
    }
}

/// A cleared document stays cleared while the store only shrinks.
proof fn lemma_doc_cleared_monotone(
    g: GraphModel,
    index: Seq<IndexEntryModel>,
    s: StoreModel,
    s2: StoreModel,
    c: Seq<char>,
    x: RecordModel,
)
    requires
        doc_cleared(g, index, s, c, x),
        store_shrunk(s, s2),
    ensures
        doc_cleared(g, index, s2, c, x),
{
    let f = spec_index_field(index, c).unwrap();
    let k = get_field_spec(x, f).unwrap();
    lemma_children_cleared_monotone(g, s, s2, c, k);
}

/// Well-formedness below `coll` passes down to a child collection, and
/// survives shrinking.
proof fn lemma_store_wf_below_step(
    g: GraphModel,
    index: Seq<IndexEntryModel>,
    s0: StoreModel,
    s1: StoreModel,
    coll: Seq<char>,
    cc: Seq<char>,
)
    requires
        graph_acyclic(g),
        store_wf_below(g, index, s0, coll),
        store_shrunk(s0, s1),
        step(g, cc, coll),
    ensures
        store_wf_below(g, index, s1, cc),
{
    assert forall|c: Seq<char>| #[trigger] strictly_below(g, c, cc) implies match spec_index_field(
        index,
        c,
    ) {
        Some(f) => forall|i: int|
            0 <= i < s1[c].len() ==> get_field_spec(#[trigger] s1[c][i], f) is Some,
        None => false,
    } by {
        lemma_below_step(g, c, cc, coll);
        assert(strictly_below(g, c, coll));
        match spec_index_field(index, c) {
            Some(f) => {
                assert forall|i: int| 0 <= i < s1[c].len() implies get_field_spec(
                    #[trigger] s1[c][i],
                    f,
                ) is Some by {
                    lemma_count_occ_member(s1[c], s1[c][i]);
                    assert(count_occ(s1[c], s1[c][i]) > 0);
                    assert(seq_shrunk(s0[c], s1[c]));
                    assert(count_occ(s0[c], s1[c][i]) > 0);
                    lemma_count_occ_member(s0[c], s1[c][i]);
                    let j = choose|j: int| 0 <= j < s0[c].len() && s0[c][j] == s1[c][i];
                    assert(get_field_spec(s0[c][j], f) is Some);
                }
            },
            None => {
                assert(false);
            },
        }
    }
}

/// Delete everything the record keyed `key` in collection `coll` owns,
/// transitively and depth first, leaving the record itself alone.
///
/// Termination rests on the graph's acyclicity: each recursive call moves to
/// a collection whose reach set is strictly smaller.
#[verifier::loop_isolation(false)]
#[verifier::rlimit(100)]
fn delete_owned_by_key<S: DocumentStore>(
    reg: &Registry,
    store: &mut S,
    coll: &str,
    key: &FieldValue,
) -> (r: Result<(), DeleteError>)
    requires
        reg.wf(),
    ensures
        forall|c: Seq<char>|
            !strictly_below(reg@.graph, c, coll@) ==> #[trigger] final(store).sview()[c] == old(
                store,
            ).sview()[c],
        store_shrunk(old(store).sview(), final(store).sview()),
        no_new_orphans(reg@.graph, reg@.index, old(store).sview(), final(store).sview()),
        r is Ok ==> children_cleared(reg@.graph, final(store).sview(), coll@, key@),
        r is Ok ==> forall|c: Seq<char>, x: RecordModel|
            #[trigger] deleted_from(old(store).sview()[c], final(store).sview()[c], x)
                ==> deletion_owned(
                reg@.graph,
                reg@.index,
                old(store).sview(),
                final(store).sview(),
                coll@,
                key@,
                c,
                x,
            ),
        (r matches Err(DeleteError::MissingIndexMapping { .. }) || r matches Err(
            DeleteError::MissingIndexField { .. },
        )) ==> !store_wf_below(reg@.graph, reg@.index, old(store).sview(), coll@),
        children_cleared(reg@.graph, old(store).sview(), coll@, key@) ==> (r is Ok || r matches Err(
            DeleteError::Store(_),
        )),
        (children_cleared(reg@.graph, old(store).sview(), coll@, key@) && r is Ok) ==> forall|
            c: Seq<char>,
        | #[trigger] final(store).sview()[c] == old(store).sview()[c],
    decreases reach_set(reg@.graph, coll@).len(),
{
    let ghost g = reg@.graph;
    let ghost index = reg@.index;
    let ghost s0 = store.sview();
    let ghost cleared_hyp = children_cleared(g, s0, coll@, key@);
    let edges = reg.graph().edges_incoming(coll);
    let n = edges.len();
    proof {
        lemma_incoming_edges(g.edges, coll@);
    }
    let mut ei: usize = 0;
    while ei < n
        invariant
            ei <= n,
            forall|c: Seq<char>|
                !strictly_below(g, c, coll@) ==> #[trigger] store.sview()[c] == s0[c],
            store_shrunk(s0, store.sview()),
            no_new_orphans(g, index, s0, store.sview()),
            forall|j: int|
                0 <= j < ei ==> count_matching(
                    store.sview()[(#[trigger] edges@[j])@.owned],
                    edges@[j]@.owned_field,
                    key@,
                ) == 0,
            cleared_hyp ==> forall|c: Seq<char>| #[trigger] store.sview()[c] == s0[c],
            forall|c: Seq<char>, x: RecordModel|
                #[trigger] deleted_from(s0[c], store.sview()[c], x) ==> deletion_owned(
                    g,
                    index,
                    s0,
                    store.sview(),
                    coll@,
                    key@,
                    c,
                    x,
                ),
        decreases n - ei,
    {
        let e = &edges[ei];
        let ghost ev = edges@[ei as int]@;
        proof {
            assert(edges@.map_values(|x: GraphEdge| x@)[ei as int] == ev);
            assert(ev.owner == coll@);
            let i0 = choose|i: int| 0 <= i < g.edges.len() && g.edges[i] == ev;
            assert(step(g, ev.owned, coll@)) by {
                assert(g.edges[i0].owned == ev.owned && g.edges[i0].owner == coll@);
            }
            lemma_child_below(g, ev.owned, coll@);
        }
        let found = match store.find(e.owned.as_str(), e.label.owned_field.as_str(), key) {
            Ok(v) => v,
            Err(se) => {
                return Err(DeleteError::Store(se));
            },
        };
        let ghost s_find = store.sview();
        proof {
            assert(e@ == ev);
            assert(rec_views(found@) == filter_matching(s_find[ev.owned], ev.owned_field, key@));
            if cleared_hyp {
                assert(s_find[ev.owned] == s0[ev.owned]);
                let i0 = choose|i: int| 0 <= i < g.edges.len() && g.edges[i] == ev;
                assert(count_matching(s0[g.edges[i0].owned], g.edges[i0].owned_field, key@) == 0);
                lemma_filter_empty(s_find[ev.owned], ev.owned_field, key@);
                assert(rec_views(found@).len() == 0);
                assert(found@.len() == 0);
            }
            assert forall|c: Seq<char>, x: RecordModel|
                #[trigger] deleted_from(s0[c], store.sview()[c], x) implies deletion_owned_with(
                g,
                index,
                s0,
                store.sview(),
                coll@,
                key@,
                c,
                x,
                rec_views(found@),
                ev.owned,
            ) by {
                lemma_owned_weaken(
                    g,
                    index,
                    s0,
                    store.sview(),
                    coll@,
                    key@,
                    c,
                    x,
                    rec_views(found@),
                    ev.owned,
                );
            }
        }
        let m = found.len();
        let mut di: usize = 0;
        while di < m
            invariant
                di <= m,
                m == found@.len(),
                forall|c: Seq<char>|
                    !strictly_below(g, c, coll@) ==> #[trigger] store.sview()[c] == s0[c],
                store_shrunk(s0, store.sview()),
                no_new_orphans(g, index, s0, store.sview()),
                forall|j: int|
                    0 <= j < ei ==> count_matching(
                        store.sview()[(#[trigger] edges@[j])@.owned],
                        edges@[j]@.owned_field,
                        key@,
                    ) == 0,
                store.sview()[ev.owned] == s_find[ev.owned],
                cleared_hyp ==> forall|c: Seq<char>| #[trigger] store.sview()[c] == s0[c],
                forall|c: Seq<char>, x: RecordModel|
                    #[trigger] deleted_from(s0[c], store.sview()[c], x) ==> deletion_owned_with(
                        g,
                        index,
                        s0,
                        store.sview(),
                        coll@,
                        key@,
                        c,
                        x,
                        rec_views(found@),
                        ev.owned,
                    ),
                forall|j: int|
                    0 <= j < di ==> doc_cleared(
                        g,
                        index,
                        store.sview(),
                        ev.owned,
                        (#[trigger] found@[j])@,
                    ),
            decreases m - di,
        {
            proof {
                if cleared_hyp {
                    assert(false);
                }
            }
            let doc = &found[di];
            let idxf = match reg.index_field_of(e.owned.as_str()) {
                Some(f) => f,
                None => {
                    proof {
                        assert(strictly_below(g, ev.owned, coll@));
                        assert(!store_wf_below(g, index, s0, coll@));
                    }
                    return Err(DeleteError::MissingIndexMapping { collection: e.owned.clone() });
                },
            };
            let dkey = match doc.get_field(idxf.as_str()) {
                Some(v) => v,
                None => {
                    proof {
                        let x = found@[di as int]@;
                        assert(rec_views(found@)[di as int] == x);
                        let fseq = filter_matching(s_find[ev.owned], ev.owned_field, key@);
                        lemma_count_occ_member(fseq, x);
                        assert(count_occ(fseq, x) > 0);
                        lemma_filter_count(s_find[ev.owned], ev.owned_field, key@, x);
                        assert(count_occ(s_find[ev.owned], x) > 0);
                        assert(seq_shrunk(s0[ev.owned], s_find[ev.owned]));
                        assert(count_occ(s0[ev.owned], x) > 0);
                        lemma_count_occ_member(s0[ev.owned], x);
                        let jj = choose|jj: int|
                            0 <= jj < s0[ev.owned].len() && s0[ev.owned][jj] == x;
                        assert(get_field_spec(x, idxf@) is None);
                        assert(strictly_below(g, ev.owned, coll@));
                        if store_wf_below(g, index, s0, coll@) {
                            assert(get_field_spec(s0[ev.owned][jj], idxf@) is Some);
                            assert(false);
                        }
                    }
                    return Err(DeleteError::MissingIndexField { collection: e.owned.clone() });
                },
            };
            proof {
                lemma_step_strict(g, ev.owned, coll@);
            }
            let ghost s_pre = store.sview();
            match delete_owned_by_key(reg, store, e.owned.as_str(), dkey) {
                Ok(()) => {
                    proof {
                        let s_now = store.sview();
                        assert forall|c: Seq<char>| !strictly_below(g, c, coll@) implies
                            #[trigger] s_now[c] == s0[c] by {
                            if strictly_below(g, c, ev.owned) {
                                lemma_below_step(g, c, ev.owned, coll@);
                            }
                            assert(s_now[c] == s_pre[c]);
                        }
                        lemma_store_shrunk_trans(s0, s_pre, s_now);
                        assert forall|c: Seq<char>, x: RecordModel|
                            #[trigger] deleted_from(s0[c], s_now[c], x) implies doc_cleared(
                            g,
                            index,
                            s_now,
                            c,
                            x,
                        ) by {
                            if deleted_from(s_pre[c], s_now[c], x) {
                            } else {
                                assert(deleted_from(s0[c], s_pre[c], x));
                                lemma_doc_cleared_monotone(g, index, s_pre, s_now, c, x);
                            }
                        }
                        assert forall|j: int| 0 <= j < ei implies count_matching(
                            s_now[(#[trigger] edges@[j])@.owned],
                            edges@[j]@.owned_field,
                            key@,
                        ) == 0 by {
                            assert(seq_shrunk(s_pre[edges@[j]@.owned], s_now[edges@[j]@.owned]));
                            lemma_no_match_monotone(
                                s_pre[edges@[j]@.owned],
                                s_now[edges@[j]@.owned],
                                edges@[j]@.owned_field,
                                key@,
                            );
                        }
                        assert(!strictly_below(g, ev.owned, ev.owned));
                        assert(s_now[ev.owned] == s_find[ev.owned]);
                        assert forall|j: int| 0 <= j < di + 1 implies doc_cleared(
                            g,
                            index,
                            s_now,
                            ev.owned,
                            (#[trigger] found@[j])@,
                        ) by {
                            if j < di {
                                lemma_doc_cleared_monotone(
                                    g,
                                    index,
                                    s_pre,
                                    s_now,
                                    ev.owned,
                                    found@[j]@,
                                );
                            } else {
                                assert(spec_index_field(index, ev.owned) == Some(idxf@));
                                assert(get_field_spec(found@[j]@, idxf@) == Some(dkey@));
                                assert(children_cleared(g, s_now, ev.owned, dkey@));
                            }
                        }
                        assert forall|c: Seq<char>, x: RecordModel|
                            #[trigger] deleted_from(s0[c], s_now[c], x) implies deletion_owned_with(
                            g,
                            index,
                            s0,
                            s_now,
                            coll@,
                            key@,
                            c,
                            x,
                            rec_views(found@),
                            ev.owned,
                        ) by {
                            if deleted_from(s_pre[c], s_now[c], x) {
                                assert(seq_has(rec_views(found@), found@[di as int]@)) by {
                                    assert(rec_views(found@)[di as int] == found@[di as int]@);
                                }
                                lemma_owned_lift_child(
                                    g,
                                    index,
                                    s0,
                                    s_pre,
                                    s_now,
                                    coll@,
                                    key@,
                                    ev.owned,
                                    dkey@,
                                    idxf@,
                                    found@[di as int]@,
                                    rec_views(found@),
                                    c,
                                    x,
                                );
                            } else {
                                assert(deleted_from(s0[c], s_pre[c], x));
                                lemma_owned_monotone(
                                    g,
                                    index,
                                    s0,
                                    s_pre,
                                    s_now,
                                    coll@,
                                    key@,
                                    c,
                                    x,
                                    rec_views(found@),
                                    ev.owned,
                                );
                            }
                        }
                    }
                },
                Err(err) => {
                    proof {
                        let s_now = store.sview();
                        assert forall|c: Seq<char>| !strictly_below(g, c, coll@) implies
                            #[trigger] s_now[c] == s0[c] by {
                            if strictly_below(g, c, ev.owned) {
                                lemma_below_step(g, c, ev.owned, coll@);
                            }
                            assert(s_now[c] == s_pre[c]);
                        }
                        lemma_store_shrunk_trans(s0, s_pre, s_now);
                        assert forall|c: Seq<char>, x: RecordModel|
                            #[trigger] deleted_from(s0[c], s_now[c], x) implies doc_cleared(
                            g,
                            index,
                            s_now,
                            c,
                            x,
                        ) by {
                            if deleted_from(s_pre[c], s_now[c], x) {
                            } else {
                                assert(deleted_from(s0[c], s_pre[c], x));
                                lemma_doc_cleared_monotone(g, index, s_pre, s_now, c, x);
                            }
                        }
                        match err {
                            DeleteError::MissingIndexMapping { .. } => {
                                if store_wf_below(g, index, s0, coll@) {
                                    lemma_store_wf_below_step(g, index, s0, s_pre, coll@, ev.owned);
                                    assert(false);
                                }
                            },
                            DeleteError::MissingIndexField { .. } => {
                                if store_wf_below(g, index, s0, coll@) {
                                    lemma_store_wf_below_step(g, index, s0, s_pre, coll@, ev.owned);
                                    assert(false);
                                }
                            },
                            DeleteError::Store(_) => {},
                        }
                    }
                    return Err(err);
                },
            }
            di = di + 1;
        }
        let ghost s_bd = store.sview();
        match store.delete_many(e.owned.as_str(), e.label.owned_field.as_str(), key) {
            Ok(_cnt) => {
                proof {
                    let s_after = store.sview();
                    assert(s_after == s_bd.insert(
                        ev.owned,
                        remove_matching(s_bd[ev.owned], ev.owned_field, key@),
                    ));
                    assert(strictly_below(g, ev.owned, coll@));
                    assert forall|c: Seq<char>| !strictly_below(g, c, coll@) implies
                        #[trigger] s_after[c] == s0[c] by {
                        assert(c != ev.owned);
                        assert(s_after[c] == s_bd[c]);
                    }
                    assert(store_shrunk(s_bd, s_after)) by {
                        assert forall|c: Seq<char>| #[trigger] seq_shrunk(s_bd[c], s_after[c]) by {
                            if c == ev.owned {
                                assert forall|x: RecordModel|
                                    #[trigger] count_occ(s_after[c], x) <= count_occ(
                                    s_bd[c],
                                    x,
                                ) by {
                                    lemma_remove_count(s_bd[c], ev.owned_field, key@, x);
                                }
                            }
                        }
                    }
                    lemma_store_shrunk_trans(s0, s_bd, s_after);
                    assert forall|c: Seq<char>, x: RecordModel|
                        #[trigger] deleted_from(s0[c], s_after[c], x) implies doc_cleared(
                        g,
                        index,
                        s_after,
                        c,
                        x,
                    ) by {
                        if deleted_from(s0[c], s_bd[c], x) {
                            lemma_doc_cleared_monotone(g, index, s_bd, s_after, c, x);
                        } else {
                            // newly deleted by this bulk delete: it matched the
                            // filter, so it was among the found documents, all of
                            // whose subtrees are cleared
                            assert(c == ev.owned);
                            assert(deleted_from(s_bd[c], s_after[c], x));
                            lemma_remove_count(s_bd[c], ev.owned_field, key@, x);
                            assert(rec_matches(x, ev.owned_field, key@));
                            assert(count_occ(s_bd[c], x) > 0);
                            assert(s_bd[c] == s_find[ev.owned]);
                            lemma_filter_count(s_find[ev.owned], ev.owned_field, key@, x);
                            let fseq = filter_matching(s_find[ev.owned], ev.owned_field, key@);
                            assert(count_occ(fseq, x) > 0);
                            lemma_count_occ_member(fseq, x);
                            let j = choose|j: int| 0 <= j < fseq.len() && fseq[j] == x;
                            assert(rec_views(found@)[j] == x);
                            assert(found@[j]@ == x);
                            assert(doc_cleared(g, index, s_bd, ev.owned, x));
                            lemma_doc_cleared_monotone(g, index, s_bd, s_after, ev.owned, x);
                        }
                    }
                    assert forall|j: int| 0 <= j < ei + 1 implies count_matching(
                        s_after[(#[trigger] edges@[j])@.owned],
                        edges@[j]@.owned_field,
                        key@,
                    ) == 0 by {
                        if j < ei {
                            assert(seq_shrunk(s_bd[edges@[j]@.owned], s_after[edges@[j]@.owned]));
                            lemma_no_match_monotone(
                                s_bd[edges@[j]@.owned],
                                s_after[edges@[j]@.owned],
                                edges@[j]@.owned_field,
                                key@,
                            );
                        } else {
                            assert(edges@[j]@ == ev);
                            lemma_remove_matching_clears(s_bd[ev.owned], ev.owned_field, key@);
                        }
                    }
                    assert forall|c: Seq<char>, x: RecordModel|
                        #[trigger] deleted_from(s0[c], s_after[c], x) implies deletion_owned(
                        g,
                        index,
                        s0,
                        s_after,
                        coll@,
                        key@,
                        c,
                        x,
                    ) by {
                        let i0 = choose|i: int| 0 <= i < g.edges.len() && g.edges[i] == ev;
                        lemma_owned_after_bulk(
                            g,
                            index,
                            s0,
                            s_bd,
                            s_after,
                            coll@,
                            key@,
                            ev.owned,
                            ev.owned_field,
                            rec_views(found@),
                            i0,
                            c,
                            x,
                        );
                    }
                    if cleared_hyp {
                        assert(m == 0);
                        assert(s_bd[ev.owned] == s0[ev.owned]);
                        assert(count_matching(s_bd[ev.owned], ev.owned_field, key@) == 0) by {
                            let i0 = choose|i: int| 0 <= i < g.edges.len() && g.edges[i] == ev;
                            assert(count_matching(
                                s0[g.edges[i0].owned],
                                g.edges[i0].owned_field,
                                key@,
                            ) == 0);
                        }
                        lemma_remove_matching_noop(s_bd[ev.owned], ev.owned_field, key@);
                        assert forall|c: Seq<char>| #[trigger] s_after[c] == s0[c] by {
                            if c == ev.owned {
                                assert(s_after[c] == remove_matching(
                                    s_bd[ev.owned],
                                    ev.owned_field,
                                    key@,
                                ));
                            }
                        }
                    }
                }
            },
            Err(se) => {
                proof {
                    let s_after = store.sview();
                    assert(strictly_below(g, ev.owned, coll@));
                    assert forall|c: Seq<char>| !strictly_below(g, c, coll@) implies
                        #[trigger] s_after[c] == s0[c] by {
                        assert(c != ev.owned);
                        assert(s_after[c] == s_bd[c]);
                    }
                    assert(store_shrunk(s_bd, s_after)) by {
                        assert forall|c: Seq<char>| #[trigger] seq_shrunk(s_bd[c], s_after[c]) by {
                            if c != ev.owned {
                                assert(s_after[c] == s_bd[c]);
                            }
                        }
                    }
                    lemma_store_shrunk_trans(s0, s_bd, s_after);
                    assert forall|c: Seq<char>, x: RecordModel|
                        #[trigger] deleted_from(s0[c], s_after[c], x) implies doc_cleared(
                        g,
                        index,
                        s_after,
                        c,
                        x,
                    ) by {
                        if deleted_from(s0[c], s_bd[c], x) {
                            lemma_doc_cleared_monotone(g, index, s_bd, s_after, c, x);
                        } else {
                            assert(c == ev.owned);
                            assert(deleted_from(s_bd[c], s_after[c], x));
                            assert(rec_matches(x, ev.owned_field, key@));
                            assert(count_occ(s_bd[c], x) > 0);
                            assert(s_bd[c] == s_find[ev.owned]);
                            lemma_filter_count(s_find[ev.owned], ev.owned_field, key@, x);
                            let fseq = filter_matching(s_find[ev.owned], ev.owned_field, key@);
                            assert(count_occ(fseq, x) > 0);
                            lemma_count_occ_member(fseq, x);
                            let j = choose|j: int| 0 <= j < fseq.len() && fseq[j] == x;
                            assert(rec_views(found@)[j] == x);
                            assert(found@[j]@ == x);
                            assert(doc_cleared(g, index, s_bd, ev.owned, x));
                            lemma_doc_cleared_monotone(g, index, s_bd, s_after, ev.owned, x);
                        }
                    }
                }
                return Err(DeleteError::Store(se));
            },
        }
        ei = ei + 1;
    }
    proof {
        assert forall|i: int|
            0 <= i < g.edges.len() && (#[trigger] g.edges[i]).owner == coll@ implies count_matching(
            store.sview()[g.edges[i].owned],
            g.edges[i].owned_field,
            key@,
        ) == 0 by {
            let inc = spec_edges_incoming(g.edges, coll@);
            let j = choose|j: int| 0 <= j < inc.len() && inc[j] == g.edges[i];
            assert(edges@.map_values(|x: GraphEdge| x@)[j] == inc[j]);
            assert(edges@[j]@ == g.edges[i]);
        }
    }
    Ok(())
}

/// Cascade-delete the record of `collection` whose `index_field` holds
/// `key`: first everything the record transitively owns, depth first, then
/// the record itself.  Returns the first store failure, or a schema failure
/// when the cascade meets a collection without a registered index field or a
/// document without one.  Whatever the outcome, the store only shrinks, and
/// every deleted document had its own owned documents deleted too.
pub fn safe_delete_by_key<S: DocumentStore>(
    reg: &Registry,
    store: &mut S,
    collection: &str,
    index_field: &str,
    key: &FieldValue,
) -> (r: Result<(), DeleteError>)
    requires
        reg.wf(),
    ensures
        r is Ok ==> safe_delete_post(
            reg@.graph,
            reg@.index,
            old(store).sview(),
            final(store).sview(),
            collection@,
            index_field@,
            key@,
        ),
        store_shrunk(old(store).sview(), final(store).sview()),
        forall|c: Seq<char>|
            !reaches(reg@.graph, c, collection@) ==> #[trigger] final(store).sview()[c] == old(
                store,
            ).sview()[c],
        forall|c: Seq<char>, x: RecordModel|
            c != collection@ && #[trigger] deleted_from(
                old(store).sview()[c],
                final(store).sview()[c],
                x,
            ) ==> doc_cleared(reg@.graph, reg@.index, final(store).sview(), c, x),
        forall|x: RecordModel|
            #[trigger] deleted_from(
                old(store).sview()[collection@],
                final(store).sview()[collection@],
                x,
            ) ==> rec_matches(x, index_field@, key@),
        (r matches Err(DeleteError::MissingIndexMapping { .. }) || r matches Err(
            DeleteError::MissingIndexField { .. },
        )) ==> !store_wf_below(reg@.graph, reg@.index, old(store).sview(), collection@),
        store_wf_below(reg@.graph, reg@.index, old(store).sview(), collection@) ==> (r is Ok
            || r matches Err(DeleteError::Store(_))),
{
    let ghost g = reg@.graph;
    let ghost index = reg@.index;
    let ghost s0 = store.sview();
    match delete_owned_by_key(reg, store, collection, key) {
        Ok(()) => {},
        Err(e) => {
            proof {
                let s_now = store.sview();
                assert forall|c: Seq<char>| !reaches(g, c, collection@) implies #[trigger] s_now[c]
                    == s0[c] by {
                    assert(!strictly_below(g, c, collection@));
                }
                assert(!strictly_below(g, collection@, collection@));
                assert(s_now[collection@] == s0[collection@]);
                assert forall|x: RecordModel|
                    #[trigger] deleted_from(s0[collection@], s_now[collection@], x) implies
                    rec_matches(x, index_field@, key@) by {
                    assert(false);
                }
            }
            return Err(e);
        },
    }
    let ghost s_mid = store.sview();
    proof {
        assert(!strictly_below(g, collection@, collection@));
        assert(s_mid[collection@] == s0[collection@]);
    }
    let res = store.delete_one(collection, index_field, key);
    proof {
        let s_fin = store.sview();
        match res {
            Ok(_) => {
                assert(s_fin == s_mid.insert(
                    collection@,
                    remove_first_match(s_mid[collection@], index_field@, key@),
                ));
                assert(store_shrunk(s_mid, s_fin)) by {
                    assert forall|c: Seq<char>| #[trigger] seq_shrunk(s_mid[c], s_fin[c]) by {
                        if c == collection@ {
                            assert forall|x: RecordModel|
                                #[trigger] count_occ(s_fin[c], x) <= count_occ(s_mid[c], x) by {
                                lemma_remove_first_count(s_mid[c], index_field@, key@, x);
                            }
                        }
                    }
                }
            },
            Err(_) => {
                assert(store_shrunk(s_mid, s_fin)) by {
                    assert forall|c: Seq<char>| #[trigger] seq_shrunk(s_mid[c], s_fin[c]) by {
                        if c != collection@ {
                            assert(s_fin[c] == s_mid[c]);
                        }
                    }
                }
            },
        }
        lemma_store_shrunk_trans(s0, s_mid, s_fin);
        // collections that cannot reach the record's collection are untouched
        assert forall|c: Seq<char>| !reaches(g, c, collection@) implies #[trigger] s_fin[c]
            == s0[c] by {
            lemma_reaches_self(g, collection@);
            assert(c != collection@);
            assert(!strictly_below(g, c, collection@));
            assert(s_fin[c] == s_mid[c]);
        }
        // anything deleted outside the record's collection was cleared
        assert forall|c: Seq<char>, x: RecordModel|
            c != collection@ && #[trigger] deleted_from(s0[c], s_fin[c], x) implies doc_cleared(
            g,
            index,
            s_fin,
            c,
            x,
        ) by {
            assert(s_fin[c] == s_mid[c]);
            assert(deleted_from(s0[c], s_mid[c], x));
            assert(store_shrunk(s_mid, s_fin));
            lemma_doc_cleared_monotone(g, index, s_mid, s_fin, c, x);
        }
        // anything deleted from the record's collection matched the index key
        assert forall|x: RecordModel|
            #[trigger] deleted_from(s0[collection@], s_fin[collection@], x) implies rec_matches(
            x,
            index_field@,
            key@,
        ) by {
            match res {
                Ok(_) => {
                    lemma_remove_first_count(s_mid[collection@], index_field@, key@, x);
                },
                Err(_) => {},
            }
        }
        if res is Ok {
            lemma_children_cleared_monotone(g, s_mid, s_fin, collection@, key@);
            if children_cleared(g, s0, collection@, key@) {
                assert forall|c: Seq<char>| c != collection@ implies #[trigger] s_fin[c]
                    == s0[c] by {
                    assert(s_fin[c] == s_mid[c]);
                }
            }
            assert forall|c: Seq<char>, x: RecordModel|
                c != collection@ && #[trigger] deleted_from(s0[c], s_fin[c], x) implies
                deletion_owned(g, index, s0, s_fin, collection@, key@, c, x) by {
                assert(s_fin[c] == s_mid[c]);
                assert(deleted_from(s0[c], s_mid[c], x));
                lemma_owned_monotone(
                    g,
                    index,
                    s0,
                    s_mid,
                    s_fin,
                    collection@,
                    key@,
                    c,
                    x,
                    Seq::empty(),
                    Seq::empty(),
                );
            }
        }
    }
    match res {
        Ok(_deleted) => Ok(()),
        Err(se) => Err(DeleteError::Store(se)),
    }
}

/// The `Schemable` trait provides the details associated with a data-model
/// struct, necessary to safely delete it and all the data an instance of
/// this model owns.
pub trait Schemable {
    /// The collection name, as a mathematical value.
    spec fn spec_collection_name() -> Seq<char>;

    /// The index field name, as a mathematical value.
    spec fn spec_index_name() -> Seq<char>;

    /// This record's index value, as a mathematical value.
    spec fn spec_index_value(&self) -> FieldValueModel;

    /// The name of the record type.
    fn struct_name() -> (r: &'static str);

    /// The collection that holds records of this type.
    fn collection_name() -> (r: &'static str)
        ensures
            r@ == Self::spec_collection_name(),
    ;

    /// The name of the index (primary-key) field.
    fn index_name() -> (r: &'static str)
        ensures
            r@ == Self::spec_index_name(),
    ;

    /// This record's index value.
    fn index_value(&self) -> (v: FieldValue)
        ensures
            v@ == self.spec_index_value(),
    ;

    /// A hook for record types that want extra cleanup of their own; the
    /// engine does not call it.
    fn cascade_delete(&self);
}

/// Safe deletion for a record that implements [`Schemable`], where "safety"
/// means that deleting the record deletes all of the data it exclusively
/// owns: no orphaned documents remain.
pub fn safe_delete<T: Schemable, S: DocumentStore>(
    to_delete: T,
    reg: &Registry,
    store: &mut S,
) -> (r: Result<(), DeleteError>)
    requires
        reg.wf(),
    ensures
        r is Ok ==> safe_delete_post(
            reg@.graph,
            reg@.index,
            old(store).sview(),
            final(store).sview(),
            T::spec_collection_name(),
            T::spec_index_name(),
            to_delete.spec_index_value(),
        ),
        store_shrunk(old(store).sview(), final(store).sview()),
        store_wf_below(
            reg@.graph,
            reg@.index,
            old(store).sview(),
            T::spec_collection_name(),
        ) ==> (r is Ok || r matches Err(DeleteError::Store(_))),
{
    let collection = T::collection_name();
    let index_field = T::index_name();
    let key = to_delete.index_value();
    safe_delete_by_key(reg, store, collection, index_field, &key)
}

} // verus!
