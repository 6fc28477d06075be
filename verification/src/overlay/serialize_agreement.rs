//! The two policies agree where no node is shared.

use std::sync::Arc;
use vstd::prelude::*;
use crate::key_encoding::KeyEncoding;
use crate::swizzled_ptr::SwizzledPtr;
use crate::value::DictionaryValue;
use super::compressed_serialize::{trace_of, written};
use super::graph_policy::{
    edges_to, graph_below, graph_told, reachable, shared_nodes, ArborescentProduction, DagAware,
    GraphEdge, GraphPolicy,
};
use super::model::at;
use super::node::OverlayNode;
use super::serialize_build::{OverlaySerializationBuild, RegistryBuildMode};
use super::serialize_emission::told_by;
use super::serialize_laws::{
    nothing_remembered_is_nothing_shared, place_alike, policies_write_the_same_records, told_alike,
    trees_share_nothing, unshared_nodes_are_not_remembered,
};
use super::serialize_model::RecordView;
use super::serialize_order::{children_come_before_parents, children_first};
use super::serialize_sink::OverlayCompressedSerialize;
use super::serialize_trace::Log;

verus! {

/// No node below a root is shared: in whatever was told of the graph, at most one edge
/// leads to a node.
pub open spec fn unshared<K: KeyEncoding, V>(root: Arc<OverlayNode<K, V>>) -> bool {
    forall|nodes: Seq<Arc<OverlayNode<K, V>>>, edges: Seq<GraphEdge>, addresses: Seq<u64>|
        graph_below(root, nodes, edges) && #[trigger] graph_told(nodes, edges, addresses)
            ==> forall|i: int| 0 <= i < nodes.len() ==> #[trigger] edges_to(edges, i) <= 1
}

/// A format places a record by what was written before it.
pub open spec fn places_by_log<
    K: KeyEncoding,
    V: DictionaryValue,
    S: OverlayCompressedSerialize<K, V>,
>() -> bool {
    forall|
        log: Log<K::Unit, V>,
        record: RecordView<K::Unit, V>,
        path: Seq<K::Unit>,
        p: SwizzledPtr,
        q: SwizzledPtr,
    | #[trigger] S::places(log, record, path, p) && #[trigger] S::places(log, record, path, q)
        ==> p == q
}

/// Two serializations of a root without shared nodes, one under the policy for trees
/// and one under the policy for shared nodes, into sinks that hold the same records and
/// place new ones by what was written before: both give back the same pointer and write
/// the same records for the same paths in the same order, children before parents and
/// the root last.
pub proof fn both_policies_serialize_a_tree_alike<
    K: KeyEncoding,
    V: DictionaryValue,
    S: OverlayCompressedSerialize<K, V>,
>(
    root: Arc<OverlayNode<K, V>>,
    sink: S,
    tree: OverlaySerializationBuild<K, V, ArborescentProduction>,
    sink_after: S,
    tree_after: OverlaySerializationBuild<K, V, ArborescentProduction>,
    p: SwizzledPtr,
    other: S,
    dag: OverlaySerializationBuild<K, V, DagAware<K, V>>,
    other_after: S,
    dag_after: OverlaySerializationBuild<K, V, DagAware<K, V>>,
    q: SwizzledPtr,
)
    requires
        root.wf(),
        unshared(root),
        places_by_log::<K, V, S>(),
        sink.log() == other.log(),
        tree_after.mode == RegistryBuildMode::Disabled,
        dag_after.mode == RegistryBuildMode::Disabled,
        written(root, sink, tree, sink_after, tree_after, p),
        written(root, other, dag, other_after, dag_after, q),
    ensures
        p == q,
        sink_after.log() == other_after.log(),
        sink_after.log().len() > sink.log().len(),
        sink_after.log().last().0 == p,
        children_first(
            told_by::<K, V, S, ArborescentProduction>(tree_after),
            root@,
            sink.log().len(),
            sink_after.log(),
        ),
{
    let one = told_by::<K, V, S, ArborescentProduction>(tree_after);
    let two = told_by::<K, V, S, DagAware<K, V>>(dag_after);
    trees_share_nothing::<K, V, S>(tree_after);
    assert((two.prepared)(root));
    assert(dag_after.graph.prepared_for(root));
    let (nodes, edges, addresses) = choose|
        nodes: Seq<Arc<OverlayNode<K, V>>>,
        edges: Seq<GraphEdge>,
        addresses: Seq<u64>,
    |
        graph_below(root, nodes, edges) && #[trigger] graph_told(nodes, edges, addresses)
            && dag_after.graph.nodes() == shared_nodes(nodes, edges);
    unshared_nodes_are_not_remembered(dag_after.graph, nodes, edges);
    nothing_remembered_is_nothing_shared::<K, V, S>(dag_after);
    assert(told_alike(one, two));
    assert(place_alike(one, two)) by {
        assert forall|
            log: Log<K::Unit, V>,
            record: RecordView<K::Unit, V>,
            path: Seq<K::Unit>,
            x: SwizzledPtr,
            y: SwizzledPtr,
        | #[trigger] (one.places)(log, record, path, x) && #[trigger] (two.places)(
            log,
            record,
            path,
            y,
        ) implies x == y by {
            assert(S::places(log, record, path, x) && S::places(log, record, path, y));
        }
    }
    policies_write_the_same_records(
        one,
        two,
        Seq::empty(),
        root,
        trace_of(sink, tree),
        trace_of(other, dag),
        trace_of(sink_after, tree_after),
        trace_of(other_after, dag_after),
        p,
        q,
    );
    assert(reachable(root@, root@)) by {
        assert(at(root@, Seq::<K::Unit>::empty()) == Some(root@));
    }
    children_come_before_parents(
        one,
        root@,
        Seq::empty(),
        root,
        trace_of(sink, tree),
        trace_of(sink_after, tree_after),
        p,
    );
}

} // verus!
