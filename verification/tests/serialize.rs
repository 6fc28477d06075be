use std::collections::HashMap;
use std::sync::Arc;

use persistent_artrie::error::{
    reserve_entries, reserve_outcome, CollectionAllocationError, PersistentARTrieError, TrieResult,
};
use persistent_artrie::eviction::RegistryPathId;
use persistent_artrie::key_encoding::{ByteKey, CharKey};
use persistent_artrie::overlay::atomic_ptr::{AtomicNodePtr, DeferredDurableStamp};
use persistent_artrie::overlay::compressed_serialize::serialize_compressed_loop;
use persistent_artrie::overlay::graph_policy::{
    activated, completed, indexed, ArborescentProduction, CompletedSubtree, DagAware, ExpectedBuildState,
    NodeBuildState,
};
use persistent_artrie::overlay::node::{Child, OverlayNode};
use persistent_artrie::overlay::paths::insert_path;
use persistent_artrie::overlay::serialize_build::{
    record_address, try_analysis_registry_transaction, OverlaySerializationBuild,
    RegistryBuildMode,
};
use persistent_artrie::overlay::serialize_chain::{
    chain_chunk_bounds, chain_chunk_count, chain_chunk_width,
};
use persistent_artrie::overlay::serialize_sink::RecordArena;
use persistent_artrie::overlay::stamping::stamped_root;
use persistent_artrie::registry::DiskLocationRegistry;
use persistent_artrie::swizzled_ptr::{DiskLocation, NodeType, SwizzledPtr};

type Node = OverlayNode<ByteKey, ()>;
type Arena = RecordArena<ByteKey, ()>;
type TreeBuild = OverlaySerializationBuild<ByteKey, (), ArborescentProduction>;
type DagBuild = OverlaySerializationBuild<ByteKey, (), DagAware<ByteKey, ()>>;

fn recording() -> Arena {
    RecordArena::new(None, 13, false)
}

fn recorded_children(arena: &Arena) -> Vec<Vec<u64>> {
    arena
        .records
        .iter()
        .map(|record| {
            record
                .children
                .iter()
                .map(|(_, pointer)| pointer.to_raw())
                .collect()
        })
        .collect()
}

fn register_test_record(
    registry: &mut DiskLocationRegistry<u8>,
    path: &[u8],
    slot: u32,
    bytes: usize,
) {
    registry
        .register(
            path,
            SwizzledPtr::on_disk(1, slot, NodeType::Node4),
            bytes,
            path.len(),
            NodeType::Node4,
        )
        .expect("register a record");
}

#[test]
fn arborescent_policy_is_zero_sized_and_drop_free() {
    assert_eq!(std::mem::size_of::<ArborescentProduction>(), 0);
    assert!(!std::mem::needs_drop::<ArborescentProduction>());
}

#[test]
fn arborescent_and_dag_policies_emit_identical_unique_tree() {
    let leaf_a = Arc::new(Node::new());
    let leaf_b = Arc::new(Node::new());
    let branch = Arc::new(Node::new().with_child(b'c', Child::InMem(leaf_b)));
    let root = Arc::new(
        Node::new()
            .with_child(b'a', Child::InMem(leaf_a))
            .with_child(b'b', Child::InMem(branch)),
    );

    let mut tree_serializer = recording();
    let mut tree_build: TreeBuild = OverlaySerializationBuild::production_disabled();
    let tree_root = serialize_compressed_loop(&mut tree_serializer, &root, &mut tree_build)
        .expect("serialize certified tree");

    let mut dag_serializer = recording();
    let mut dag_build: DagBuild = OverlaySerializationBuild::dag_disabled();
    let dag_root = serialize_compressed_loop(&mut dag_serializer, &root, &mut dag_build)
        .expect("serialize checked tree");

    assert_eq!(tree_root.to_raw(), dag_root.to_raw());
    assert_eq!(tree_serializer.records.len(), dag_serializer.records.len());
    assert_eq!(
        recorded_children(&tree_serializer),
        recorded_children(&dag_serializer)
    );
}

#[test]
fn disabled_and_analysis_stamp_paths_do_not_clone_nodes() {
    let node = Arc::new(Node::new());
    let initial = Arc::strong_count(&node);

    let mut disabled: TreeBuild = OverlaySerializationBuild::production_disabled();
    disabled.defer_stamp(&node, 1).expect("disabled stamp path");
    assert_eq!(Arc::strong_count(&node), initial);

    let mut analysis: DagBuild = OverlaySerializationBuild::analysis(DiskLocationRegistry::new());
    analysis.defer_stamp(&node, 2).expect("analysis stamp path");
    assert_eq!(Arc::strong_count(&node), initial);
}

#[test]
fn enabled_serializer_defers_each_emitted_stamp_once_with_exact_raw_pointer() {
    let node = Arc::new(Node::new());
    let initial = Arc::strong_count(&node);
    let mut serializer = recording();
    let mut build: TreeBuild = OverlaySerializationBuild::production_with_eviction(None);

    let pointer = serialize_compressed_loop(&mut serializer, &node, &mut build)
        .expect("serialize enabled root");

    assert_eq!(build.mode, RegistryBuildMode::Enabled);
    assert_eq!(build.deferred_stamps.len(), 1);
    assert_eq!(Arc::strong_count(&node), initial + 1);
    assert!(Arc::ptr_eq(&build.deferred_stamps[0].node, &node));
    let stamped = build.deferred_stamps[0].apply();
    assert_eq!(stamped.durable_stamp(), pointer.to_raw());
    let live = stamped_root(&node, &build.deferred_stamps);
    assert_eq!(live.durable_stamp(), pointer.to_raw());
}

#[test]
fn stamps_reach_every_written_node_and_nothing_else() {
    let durable = SwizzledPtr::on_disk(9, 4, NodeType::Node4);
    let leaf_a = Arc::new(Node::new().as_final());
    let leaf_b = Arc::new(Node::new());
    let root = Arc::new(
        Node::new()
            .with_child(b'a', Child::InMem(leaf_a))
            .with_child(b'b', Child::InMem(leaf_b))
            .with_child(b'd', Child::OnDisk(durable)),
    );
    let first = SwizzledPtr::on_disk(1, 1, NodeType::Node4).to_raw();
    let top = SwizzledPtr::on_disk(1, 2, NodeType::Node4).to_raw();
    let Child::InMem(a) = &root.children[0].1 else {
        panic!("the first child is resident");
    };
    let stamps = vec![
        DeferredDurableStamp::new(Arc::clone(a), 77),
        DeferredDurableStamp::new(Arc::clone(a), first),
        DeferredDurableStamp::new(Arc::clone(&root), top),
        DeferredDurableStamp::new(Arc::new(Node::new()), 78),
    ];

    let live = stamped_root(&root, &stamps);
    assert_eq!(live.durable_stamp(), top);
    assert_eq!(live.children.len(), 3);
    match (&live.children[0].1, &live.children[1].1, &live.children[2].1) {
        (Child::InMem(a), Child::InMem(b), Child::OnDisk(pointer)) => {
            assert_eq!(a.durable_stamp(), first);
            assert!(a.final_flag);
            assert_eq!(b.durable_stamp(), 0);
            assert_eq!(pointer.to_raw(), durable.to_raw());
        }
        _ => panic!("children keep their places"),
    }
    assert_eq!(root.durable_stamp(), 0);
}

#[test]
fn a_newer_root_sees_the_stamps_of_the_nodes_that_it_shares() {
    let leaf = Arc::new(Node::new().as_final());
    let root = Arc::new(Node::new().with_child(b'a', Child::InMem(leaf)));
    let mut serializer = recording();
    let mut build: TreeBuild = OverlaySerializationBuild::production_with_eviction(None);
    serialize_compressed_loop(&mut serializer, &root, &mut build).expect("serialize");

    let newer = Arc::new(root.with_child(b'b', Child::InMem(Arc::new(Node::new().as_final()))));
    let live = stamped_root(&newer, &build.deferred_stamps);
    assert_eq!(live.durable_stamp(), 0);
    match (&live.children[0].1, &live.children[1].1) {
        (Child::InMem(shared), Child::InMem(fresh)) => {
            assert_eq!(
                shared.durable_stamp(),
                SwizzledPtr::on_disk(1, 1, NodeType::Node4).to_raw()
            );
            assert_eq!(fresh.durable_stamp(), 0);
        }
        _ => panic!("children keep their places"),
    }
}

#[test]
fn an_analysis_starts_from_nothing_and_may_serialize() {
    let root = Arc::new(
        Node::new()
            .with_child(b'a', Child::InMem(Arc::new(Node::new().as_final())))
            .with_child(b'b', Child::InMem(Arc::new(Node::new().as_final()))),
    );
    let mut registry = DiskLocationRegistry::new();
    register_test_record(&mut registry, b"old", 9, 5);
    let pointer = try_analysis_registry_transaction::<ByteKey, (), SwizzledPtr, _>(
        &mut registry,
        |mut build| {
            assert!(build.registry.records.is_empty());
            assert!(build.registry.topology.entries.is_empty());
            assert!(build.structural_source.is_none());
            let mut sink: Arena = RecordArena::new(Some(3), 13, false);
            let result = serialize_compressed_loop(&mut sink, &root, &mut build);
            (build, result)
        },
    )
    .expect("a fresh build serializes");
    assert_eq!(
        pointer.to_raw(),
        SwizzledPtr::on_disk(1, 3, NodeType::Node4).to_raw()
    );
    assert_eq!(registry.records.len(), 3);
}

#[test]
fn a_long_chain_is_stamped_without_recursion() {
    let mut root = Arc::new(Node::new().as_final());
    for _ in 0..2000 {
        root = Arc::new(Node::new().with_child(b'x', Child::InMem(root)));
    }
    let mut serializer = recording();
    let mut build: TreeBuild = OverlaySerializationBuild::production_with_eviction(None);
    serialize_compressed_loop(&mut serializer, &root, &mut build).expect("serialize a chain");
    let live = stamped_root(&root, &build.deferred_stamps);
    let mut stamped = 0;
    let mut current = Arc::clone(&live);
    loop {
        if current.durable_stamp() != 0 {
            stamped += 1;
        }
        let next = match current.children.first() {
            Some((_, Child::InMem(child))) => Arc::clone(child),
            _ => break,
        };
        current = next;
    }
    assert_eq!(stamped, build.deferred_stamps.len());
    assert!(current.final_flag);
}

#[test]
fn records_come_children_first_in_edge_order_with_the_root_last() {
    let root = Arc::new(
        Node::new()
            .with_child(b'b', Child::InMem(Arc::new(Node::new().as_final())))
            .with_child(
                b'a',
                Child::InMem(Arc::new(
                    Node::new().with_child(b'c', Child::InMem(Arc::new(Node::new().as_final()))),
                )),
            ),
    );
    let mut serializer = recording();
    let mut build: TreeBuild = OverlaySerializationBuild::production_disabled();
    let pointer =
        serialize_compressed_loop(&mut serializer, &root, &mut build).expect("serialize a tree");
    let at = |slot: u32| SwizzledPtr::on_disk(1, slot, NodeType::Node4).to_raw();
    assert_eq!(
        recorded_children(&serializer),
        vec![vec![], vec![at(1)], vec![], vec![at(2), at(3)]]
    );
    assert_eq!(pointer.to_raw(), at(4));
}

#[test]
fn a_chain_that_ends_at_a_finished_shared_node_names_its_record() {
    let shared = Arc::new(Node::new());
    let chain_head = Arc::new(Node::new().with_child(b'x', Child::InMem(Arc::clone(&shared))));
    let root = Arc::new(
        Node::new()
            .with_child(b'a', Child::InMem(shared))
            .with_child(b'b', Child::InMem(chain_head)),
    );
    let at = |slot: u32| SwizzledPtr::on_disk(1, slot, NodeType::Node4).to_raw();
    let mut serializer = recording();
    let mut build: DagBuild = OverlaySerializationBuild::dag_disabled();
    let pointer = serialize_compressed_loop(&mut serializer, &root, &mut build)
        .expect("a finished node is named again");
    assert_eq!(
        recorded_children(&serializer),
        vec![vec![], vec![at(1)], vec![at(1), at(2)]]
    );
    assert_eq!(pointer.to_raw(), at(3));

    let mut registering: Arena = RecordArena::new(Some(5), 13, false);
    let mut build: DagBuild = OverlaySerializationBuild::analysis(DiskLocationRegistry::new());
    serialize_compressed_loop(&mut registering, &root, &mut build).expect("with a registry");
    assert_eq!(registering.records.len(), 3);
    let registered: Vec<(Vec<u8>, u64)> = build
        .registry
        .records
        .iter()
        .map(|record| {
            let path = build
                .registry
                .topology
                .materialize(record.path_id)
                .expect("registered path");
            (path, record.disk_ptr.to_raw())
        })
        .collect();
    assert_eq!(
        registered,
        vec![
            (b"a".to_vec(), at(1)),
            (b"bx".to_vec(), at(1)),
            (b"b".to_vec(), at(2)),
            (vec![], at(3)),
        ]
    );
    assert!(build.registry.records.iter().all(|record| record.resident));
}

#[test]
fn a_policy_serves_one_serialization() {
    let root = Arc::new(Node::new());
    let mut serializer = recording();
    let mut build: DagBuild = OverlaySerializationBuild::dag_disabled();
    serialize_compressed_loop(&mut serializer, &root, &mut build).expect("the first time");
    assert!(matches!(
        serialize_compressed_loop(&mut serializer, &root, &mut build),
        Err(PersistentARTrieError::InternalError { .. })
    ));
}

#[test]
fn a_stamped_child_keeps_its_record_where_the_sink_agrees() {
    let stamp = SwizzledPtr::on_disk(7, 3, NodeType::Node4);
    let child = Arc::new(Node::new().as_final().with_durable_stamp(stamp.to_raw()));
    let root = Arc::new(Node::new().with_child(b'a', Child::InMem(child)));

    let mut agrees: Arena = RecordArena::new(Some(5), 13, true);
    let mut build: TreeBuild = OverlaySerializationBuild::production_with_eviction(None);
    serialize_compressed_loop(&mut agrees, &root, &mut build).expect("taken over");
    assert_eq!(recorded_children(&agrees), vec![vec![stamp.to_raw()]]);
    assert_eq!(build.deferred_stamps.len(), 1);
    assert_eq!(build.registry.records.len(), 2);

    let mut declines: Arena = RecordArena::new(Some(5), 13, false);
    let mut build: TreeBuild = OverlaySerializationBuild::production_with_eviction(None);
    serialize_compressed_loop(&mut declines, &root, &mut build).expect("written again");
    assert_eq!(declines.records.len(), 2);
    assert_eq!(build.deferred_stamps.len(), 2);
    assert_eq!(build.registry.records.len(), 2);
}

#[test]
fn a_durable_child_without_a_record_is_corruption() {
    let nowhere = SwizzledPtr::from_raw(1);
    assert!(nowhere.disk_location().is_none());
    let root = Arc::new(Node::new().with_child(b'a', Child::OnDisk(nowhere)));
    let mut serializer = recording();
    let mut build: TreeBuild = OverlaySerializationBuild::production_disabled();
    assert!(matches!(
        serialize_compressed_loop(&mut serializer, &root, &mut build),
        Err(PersistentARTrieError::CorruptedFile { .. })
    ));
}

#[test]
fn shared_sibling_arc_is_serialized_once_and_reused_twice() {
    let shared = Arc::new(Node::new());
    let root = Arc::new(
        Node::new()
            .with_child(b'a', Child::InMem(Arc::clone(&shared)))
            .with_child(b'b', Child::InMem(shared)),
    );
    let mut serializer = recording();
    let mut build: DagBuild = OverlaySerializationBuild::dag_disabled();

    serialize_compressed_loop(&mut serializer, &root, &mut build)
        .expect("serialize shared sibling DAG");

    assert_eq!(serializer.records.len(), 2);
    let writes = recorded_children(&serializer);
    assert!(writes[0].is_empty());
    assert_eq!(writes[1].len(), 2);
    assert_eq!(writes[1][0], writes[1][1]);
}

#[test]
fn shared_node_inside_unary_chain_is_a_compression_boundary() {
    let shared = Arc::new(Node::new());
    let chain_head = Arc::new(Node::new().with_child(b'x', Child::InMem(Arc::clone(&shared))));
    let root = Arc::new(
        Node::new()
            .with_child(b'a', Child::InMem(chain_head))
            .with_child(b'b', Child::InMem(shared)),
    );
    let mut serializer = recording();
    let mut build: DagBuild = OverlaySerializationBuild::dag_disabled();

    serialize_compressed_loop(&mut serializer, &root, &mut build)
        .expect("serialize shared node beneath unary chain");

    assert_eq!(serializer.records.len(), 3);
    let writes = recorded_children(&serializer);
    assert!(writes[0].is_empty());
    assert_eq!(
        writes[1],
        vec![SwizzledPtr::on_disk(1, 1, NodeType::Node4).to_raw()]
    );
    assert_eq!(writes[2].len(), 2);
    assert_eq!(
        writes[2][0],
        SwizzledPtr::on_disk(1, 2, NodeType::Node4).to_raw()
    );
    assert_eq!(
        writes[2][1],
        SwizzledPtr::on_disk(1, 1, NodeType::Node4).to_raw()
    );
}

#[test]
fn repeated_on_disk_siblings_import_once_and_graft_nonresident() {
    const ALIASES: usize = 8;
    let durable = SwizzledPtr::on_disk(9, 7, NodeType::Node4);
    let mut root = Node::new();
    for edge in b'a'..=b'h' {
        root = root.with_child(edge, Child::OnDisk(durable.clone()));
    }
    let root = Arc::new(root);
    let mut serializer = recording();
    let mut registry = DiskLocationRegistry::new();
    let mut observed_stats = None;

    try_analysis_registry_transaction::<ByteKey, (), (), _>(&mut registry, |mut build| {
        let written = serialize_compressed_loop(&mut serializer, &root, &mut build);
        observed_stats = Some(build.on_disk_import_stats);
        (build, written.map(|_| ()))
    })
    .expect("serialize repeated durable aliases");

    let stats = observed_stats.expect("durable import stats");
    assert_eq!(stats.lookups, ALIASES);
    assert_eq!(stats.source_imports, 1);
    assert_eq!(stats.local_grafts, ALIASES - 1);
    assert_eq!(stats.local_graft_topology_entries, 0);
    assert_eq!(stats.local_graft_durable_records, ALIASES - 1);
    assert_eq!(stats.local_graft_serialized_bytes, 13 * (ALIASES - 1));
    assert_eq!(serializer.durable_import_reads, 1);
    assert_eq!(serializer.records.len(), 1);
    assert_eq!(registry.len(), ALIASES);
    assert_eq!(registry.resident_len(), 0);
    assert_eq!(registry.total_size_bytes(), 13 * ALIASES);
    let writes = recorded_children(&serializer);
    assert_eq!(writes.len(), 1);
    assert_eq!(writes[0], vec![durable.to_raw(); ALIASES]);
}

#[test]
fn same_durable_address_with_conflicting_type_fails_transactionally() {
    let node4 = SwizzledPtr::on_disk(10, 11, NodeType::Node4);
    let node16 = SwizzledPtr::on_disk(10, 11, NodeType::Node16);
    let root = Arc::new(
        Node::new()
            .with_child(b'a', Child::OnDisk(node4))
            .with_child(b'b', Child::OnDisk(node16)),
    );
    let mut serializer = recording();
    let mut registry = DiskLocationRegistry::new();
    register_test_record(&mut registry, b"old", 1, 7);

    let error =
        try_analysis_registry_transaction::<ByteKey, (), (), _>(&mut registry, |mut build| {
            let written = serialize_compressed_loop(&mut serializer, &root, &mut build);
            (build, written.map(|_| ()))
        })
        .expect_err("conflicting durable node types must fail");

    match error {
        PersistentARTrieError::CorruptedFile { reason } => {
            assert!(reason.contains("different node types for one arena record"));
        }
        other => panic!("unexpected error {:?}", other),
    }
    assert_eq!(serializer.durable_import_reads, 1);
    assert_eq!(serializer.records.len(), 0);
    assert_eq!(registry.len(), 1);
    assert_eq!(registry.total_size_bytes(), 7);
}

#[test]
fn analysis_registry_transaction_restores_prior_registry_on_error() {
    let mut registry = DiskLocationRegistry::new();
    register_test_record(&mut registry, b"old", 1, 7);

    let result: TrieResult<()> =
        try_analysis_registry_transaction::<ByteKey, (), (), _>(&mut registry, |mut build| {
            let fresh = build.registry_mut().expect("analysis registry");
            assert!(fresh.is_empty());
            register_test_record(fresh, b"partial", 2, 99);
            (
                build,
                Err(PersistentARTrieError::internal("injected analysis failure")),
            )
        });

    assert!(result.is_err());
    assert_eq!(registry.len(), 1);
    assert_eq!(registry.total_size_bytes(), 7);
}

#[test]
fn analysis_registry_transaction_replaces_prior_registry_on_success() {
    let mut registry = DiskLocationRegistry::new();
    register_test_record(&mut registry, b"old", 1, 7);

    let result =
        try_analysis_registry_transaction::<ByteKey, (), u8, _>(&mut registry, |mut build| {
            let fresh = build.registry_mut().expect("analysis registry");
            assert!(fresh.is_empty());
            register_test_record(fresh, b"new", 2, 11);
            (build, Ok(42))
        })
        .expect("analysis transaction should commit");

    assert_eq!(result, 42);
    assert_eq!(registry.len(), 1);
    assert_eq!(registry.total_size_bytes(), 11);
}

#[test]
fn analysis_registry_transaction_rejects_unfinished_builder_span() {
    let mut registry = DiskLocationRegistry::new();
    register_test_record(&mut registry, b"old", 1, 7);

    let result =
        try_analysis_registry_transaction::<ByteKey, (), (), _>(&mut registry, |mut build| {
            let fresh = build.registry_mut().expect("analysis registry");
            let root = fresh
                .reserve_path(RegistryPathId::root(), b"unfinished")
                .expect("reserve a path");
            fresh.begin_subtree(root).expect("open a subtree");
            (build, Ok(()))
        });

    assert!(result.is_err());
    assert_eq!(registry.len(), 1);
    assert_eq!(registry.total_size_bytes(), 7);
}

#[test]
fn a_long_chain_is_cut_into_chunks() {
    assert_eq!(chain_chunk_width::<ByteKey>().expect("width"), 13);
    assert_eq!(chain_chunk_width::<CharKey>().expect("width"), 7);
    assert_eq!(chain_chunk_count(0, 13).expect("count"), 0);
    assert_eq!(chain_chunk_count(13, 13).expect("count"), 1);
    assert_eq!(chain_chunk_count(27, 13).expect("count"), 3);
    assert_eq!(chain_chunk_bounds(27, 13, 0).expect("bounds"), (0, 13));
    assert_eq!(chain_chunk_bounds(27, 13, 1).expect("bounds"), (13, 26));
    assert_eq!(chain_chunk_bounds(27, 13, 2).expect("bounds"), (26, 27));
    assert!(chain_chunk_bounds(27, 13, 3).is_err());
    assert!(chain_chunk_count(1, 0).is_err());
}

#[test]
fn a_chain_below_the_root_becomes_chunks_over_its_terminus() {
    let root = insert_path(Arc::new(Node::new()), b"abcdefghijklmnopqrst");
    let mut arena = recording();
    let mut build: TreeBuild = OverlaySerializationBuild::production_disabled();
    let pointer = serialize_compressed_loop(&mut arena, &root, &mut build).expect("serialize");
    let last = arena.records.len();
    assert_eq!(
        pointer.to_raw(),
        SwizzledPtr::on_disk(1, last as u32, NodeType::Node4).to_raw()
    );
    let mut key = Vec::new();
    let mut at = last - 1;
    loop {
        let record = &arena.records[at];
        assert!(record.prefix.len() <= 12);
        key.extend_from_slice(&record.prefix);
        if record.children.is_empty() {
            assert!(record.is_final);
            break;
        }
        assert!(!record.is_final);
        assert_eq!(record.children.len(), 1);
        key.push(record.children[0].0);
        let location = record.children[0].1.disk_location().expect("child");
        at = location.offset as usize - 1;
    }
    assert_eq!(key, b"abcdefghijklmnopqrst".to_vec());
    assert!(arena.records.len() < 20);
}

#[test]
fn a_finished_build_carries_its_stamps_and_registry() {
    let leaf = Arc::new(Node::new().as_final());
    let root = Arc::new(Node::new().with_child(b'k', Child::InMem(leaf)));
    let slot = AtomicNodePtr::new(Arc::clone(&root));
    let captured = slot.load_revision().expect("revision");
    let mut arena: Arena = RecordArena::new(Some(5), 13, false);
    let mut build: TreeBuild = OverlaySerializationBuild::production_with_eviction(None);
    assert!(build.is_enabled());
    assert!(build.has_registry());
    serialize_compressed_loop(&mut arena, &root, &mut build).expect("serialize");
    let prepared = build
        .finish(&captured)
        .expect("finish")
        .expect("publication");
    assert!(prepared.captured_root.same_revision(&captured));
    assert_eq!(prepared.deferred_stamps.len(), 2);
    assert_eq!(prepared.registry.len(), 2);
    assert_eq!(prepared.registry.total_size_bytes(), 10);
    assert_eq!(prepared.registry.resident_len(), 2);

    let plain: TreeBuild = OverlaySerializationBuild::production_disabled();
    assert!(plain.finish(&captured).expect("finish").is_none());
    let refused: TreeBuild = OverlaySerializationBuild::production_disabled();
    assert!(refused.into_analysis_registry().is_err());
}

#[test]
fn a_stamped_resident_node_is_taken_over_without_a_write() {
    let durable = SwizzledPtr::on_disk(4, 9, NodeType::Node4);
    let leaf = Arc::new(Node::new().as_final().with_durable_stamp(durable.to_raw()));
    let root = Arc::new(
        Node::new()
            .with_child(b'k', Child::InMem(leaf))
            .with_child(b'm', Child::InMem(Arc::new(Node::new().as_final()))),
    );
    let mut arena: Arena = RecordArena::new(Some(5), 13, true);
    let mut build: TreeBuild = OverlaySerializationBuild::production_with_eviction(None);
    serialize_compressed_loop(&mut arena, &root, &mut build).expect("serialize");
    assert_eq!(arena.records.len(), 2);
    let top = &arena.records[1];
    assert_eq!(top.children[0], (b'k', durable));
    assert_eq!(
        top.children[1],
        (b'm', SwizzledPtr::on_disk(1, 1, NodeType::Node4))
    );
    assert_eq!(build.registry.resident_len(), 3);
    assert_eq!(build.registry.total_size_bytes(), 13 + 5 + 5);
}

#[test]
fn node_states_move_forward_only() {
    let subtree = CompletedSubtree {
        disk_ptr: SwizzledPtr::on_disk(1, 1, NodeType::Node4),
        registry_span: None,
    };
    assert!(matches!(
        activated(NodeBuildState::Unseen),
        Ok(NodeBuildState::Active)
    ));
    assert!(activated(NodeBuildState::Active).is_err());
    assert!(activated(NodeBuildState::Complete(subtree)).is_err());
    assert!(matches!(
        completed(NodeBuildState::Active, ExpectedBuildState::Active, subtree),
        Ok(NodeBuildState::Complete(_))
    ));
    assert!(completed(NodeBuildState::Unseen, ExpectedBuildState::Active, subtree).is_err());
}

#[test]
fn the_address_of_a_record_ignores_its_layout() {
    let at = |node_type: NodeType| {
        record_address(DiskLocation {
            block_id: 2,
            offset: 3,
            node_type,
        })
    };
    assert_eq!(at(NodeType::Node4), 0x2_0000_0003);
    assert_eq!(at(NodeType::Node4), at(NodeType::Node16));
}

#[test]
fn a_grafted_subtree_repeats_its_records() {
    let mut registry: DiskLocationRegistry<u8> = DiskLocationRegistry::new();
    let a = registry
        .reserve_path(RegistryPathId::root(), b"a")
        .expect("path");
    let start = registry.begin_subtree(a).expect("begin");
    let below = registry.reserve_path(a, b"xy").expect("path");
    let top = SwizzledPtr::on_disk(1, 1, NodeType::Node4);
    let low = SwizzledPtr::on_disk(1, 2, NodeType::Node4);
    registry
        .register_path(a, top, 10, 1, NodeType::Node4, false)
        .expect("record");
    registry
        .register_path(below, low, 20, 3, NodeType::Node4, false)
        .expect("record");
    let span = registry.finish_subtree(start).expect("finish");
    let b = registry
        .reserve_path(RegistryPathId::root(), b"b")
        .expect("path");
    let stats = registry
        .graft_subtree(span, b, top, false)
        .expect("graft");
    assert_eq!(stats.durable_records, 2);
    assert_eq!(stats.serialized_bytes, 30);
    assert_eq!(stats.appended_topology_entries, 1);
    assert!(!stats.overflowed);
    assert_eq!(registry.len(), 4);
    assert_eq!(registry.total_size_bytes(), 60);
    assert!(registry.graft_subtree(span, b, low, false).is_err());
}

#[test]
fn remembered_nodes_are_moved_on_by_position() {
    let mut policy = DagAware::<ByteKey, ()>::new();
    policy
        .entries
        .push((Arc::new(Node::new()), NodeBuildState::Unseen));
    let subtree = CompletedSubtree {
        disk_ptr: SwizzledPtr::on_disk(1, 1, NodeType::Node4),
        registry_span: None,
    };
    assert_eq!(policy.state_at(None), NodeBuildState::Unseen);
    assert!(policy.activate_at(None).is_ok());
    assert!(policy.activate_at(Some(0)).is_ok());
    assert_eq!(policy.state_at(Some(0)), NodeBuildState::Active);
    assert!(policy.activate_at(Some(0)).is_err());
    assert!(policy
        .complete_at(Some(0), ExpectedBuildState::Unseen, subtree)
        .is_err());
    assert!(policy
        .complete_at(Some(0), ExpectedBuildState::Active, subtree)
        .is_ok());
    assert_eq!(policy.state_at(Some(0)), NodeBuildState::Complete(subtree));
    assert!(policy
        .complete_at(None, ExpectedBuildState::Active, subtree)
        .is_ok());

    let mut registry: DiskLocationRegistry<u8> = DiskLocationRegistry::new();
    let path = registry
        .reserve_path(RegistryPathId::root(), b"a")
        .expect("path");
    let start = registry.begin_subtree(path).expect("begin");
    let spanned = CompletedSubtree {
        registry_span: Some(registry.finish_subtree(start).expect("finish")),
        ..subtree
    };
    assert!(policy
        .complete_at(None, ExpectedBuildState::Active, spanned)
        .is_err());

    let index = HashMap::from([(40u64, 1usize)]);
    assert_eq!(indexed(&index, 40, 2), Some(1));
    assert_eq!(indexed(&index, 40, 1), None);
    assert_eq!(indexed(&index, 41, 2), None);
}

#[test]
fn a_request_for_too_much_room_names_its_operation() {
    let mut entries: Vec<u64> = vec![1];
    assert!(reserve_entries(&mut entries, 4, "some entries", 5).is_ok());
    assert!(matches!(
        reserve_entries(&mut entries, usize::MAX, "some entries", 7),
        Err(PersistentARTrieError::AllocationFailed {
            operation: "some entries",
            requested_entries: 7,
            source: CollectionAllocationError::TryReserve(_),
        })
    ));
    assert_eq!(entries, vec![1]);
    assert!(reserve_outcome(Ok(()), "some entries", 7).is_ok());
}
