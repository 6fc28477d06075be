use std::cell::{Cell, RefCell};
use std::sync::Arc;

use persistent_artrie::error::{CollectionAllocationError, PersistentARTrieError, TrieResult};
use persistent_artrie::eviction::{CompactEvictionBatch, CompactEvictionPolicy};
use persistent_artrie::key_encoding::ByteKey;
use persistent_artrie::overlay::atomic_ptr::{
    AtomicNodePtr, PreparedBoundRootTransition, RootRevision,
};
use persistent_artrie::overlay::fault::{
    plan_fault, splice_loaded, totals_of, walk_faulting_snapshot, walk_to_durable, walk_to_durable_on,
    ExactEvictionOutcome, ExactFaultOutcome, FaultPlan, FaultWalk, OverlayEvictable,
};
use persistent_artrie::overlay::faulter::{loaded, MemoryRecords, OverlayFaulter};
use persistent_artrie::overlay::indices::SuccessfulCandidateIndices;
use persistent_artrie::overlay::node::{release_tree, Child, OverlayNode};
use persistent_artrie::overlay::residency::{
    EvictionBinding, PackedResidencyDelta, PreparedPackedResidency, PublishedRegistryCatalog,
    ResidencyHelpOutcome, RootEvictionRevision,
};
use persistent_artrie::overlay::OverlayPathSpine;
use persistent_artrie::registry::DiskLocationRegistry;
use persistent_artrie::swizzled_ptr::{NodeType, SwizzledPtr};

type Node = OverlayNode<ByteKey, u64>;

/// Stands behind a root until it retires, which it does during the first load.
struct RetirementFaultHarness {
    root: AtomicNodePtr<ByteKey, u64>,
    coordinator: RefCell<Option<EvictionBinding>>,
    retires: bool,
    decoded: Arc<Node>,
    loads: Cell<usize>,
    attempts: Cell<usize>,
}

fn settle(_: &RootEvictionRevision) -> ResidencyHelpOutcome {
    ResidencyHelpOutcome::Complete
}

impl RetirementFaultHarness {
    fn new(root: AtomicNodePtr<ByteKey, u64>, coordinator: Option<EvictionBinding>) -> Self {
        RetirementFaultHarness {
            root,
            coordinator: RefCell::new(coordinator),
            retires: true,
            decoded: Arc::new(OverlayNode::new().as_final()),
            loads: Cell::new(0),
            attempts: Cell::new(0),
        }
    }

    fn residency(&self, revision: &RootRevision<ByteKey, u64>) -> Option<PreparedPackedResidency> {
        let binding = self.coordinator.borrow().clone()?;
        let state = revision.eviction_revision()?;
        if !state.catalog.binding.same_publication(&binding) {
            return None;
        }
        Some(PreparedPackedResidency {
            catalog: Arc::clone(&state.catalog),
            predecessor_ordinal: state.ordinal,
            target_ordinal: 0,
            resident_nodes: 1,
            resident_serialized_bytes: 29,
            delta: PackedResidencyDelta::Unchanged,
        })
    }
}

impl OverlayFaulter<ByteKey, u64> for RetirementFaultHarness {
    fn try_fault_overlay_slot(&self, _slot: &SwizzledPtr) -> TrieResult<Arc<Node>> {
        self.loads.set(self.loads.get() + 1);
        if self.retires && self.coordinator.borrow_mut().take().is_some() {
            let bound = self.root.load_revision().expect("bound root");
            let release = AtomicNodePtr::prepare_retirement_detachment(&bound);
            assert!(self.root.publish_retirement_detachment(&release).is_ok());
        }
        Ok(Arc::clone(&self.decoded))
    }
}

impl OverlayEvictable<ByteKey, u64> for RetirementFaultHarness {
    fn overlay_root_slot(&self) -> Option<&AtomicNodePtr<ByteKey, u64>> {
        Some(&self.root)
    }

    fn overlay_has_coordinator(&self) -> bool {
        self.coordinator.borrow().is_some()
    }

    fn prepare_overlay_eviction_commit(
        &self,
        root_revision: &RootRevision<ByteKey, u64>,
        _batch: &CompactEvictionBatch<u8>,
        _successful: &SuccessfulCandidateIndices,
    ) -> Option<PreparedPackedResidency> {
        self.residency(root_revision)
    }

    fn commit_overlay_eviction(
        &self,
        root: &AtomicNodePtr<ByteKey, u64>,
        transition: PreparedBoundRootTransition<ByteKey, u64>,
    ) -> ExactEvictionOutcome {
        if self.coordinator.borrow().is_none() {
            return ExactEvictionOutcome::AuthorityLost;
        }
        match root.publish_bound_root_transition(&transition, settle) {
            Ok(_) => ExactEvictionOutcome::Committed(1, 29),
            Err(_) => ExactEvictionOutcome::RootAdvanced,
        }
    }

    fn prepare_overlay_fault_commit(
        &self,
        root_revision: &RootRevision<ByteKey, u64>,
        _path: &[u8],
        _disk_ptr: &SwizzledPtr,
    ) -> Option<PreparedPackedResidency> {
        self.residency(root_revision)
    }

    fn commit_overlay_fault(
        &self,
        root: &AtomicNodePtr<ByteKey, u64>,
        transition: PreparedBoundRootTransition<ByteKey, u64>,
    ) -> ExactFaultOutcome {
        if self.coordinator.borrow().is_none() {
            return ExactFaultOutcome::AuthorityLost;
        }
        match root.publish_bound_root_transition(&transition, settle) {
            Ok(_) => ExactFaultOutcome::Committed,
            Err(_) => ExactFaultOutcome::RootAdvanced,
        }
    }

    fn note_faultin_cas(&self) {
        self.attempts.set(self.attempts.get() + 1);
    }
}

fn bound_harness(root_node: Arc<Node>) -> RetirementFaultHarness {
    let root = AtomicNodePtr::new_with_term_count(root_node, 1);
    let captured = root.load_revision().expect("captured test root");
    let binding = EvictionBinding::new();
    let prepared = AtomicNodePtr::prepare_checkpoint_binding(
        &captured,
        Arc::new(PublishedRegistryCatalog::empty_for_binding(binding.clone())),
        0,
        0,
    );
    assert!(root.publish_checkpoint_binding(&prepared).is_ok());
    RetirementFaultHarness::new(root, Some(binding))
}

fn resident_prefix_with_disk_tail(prefix_len: usize, disk_ptr: &SwizzledPtr) -> Arc<Node> {
    let mut node = Arc::new(OverlayNode::new().with_child(b'z', Child::OnDisk(disk_ptr.clone())));
    for _ in 0..prefix_len {
        node = Arc::new(OverlayNode::new().with_child(b'x', Child::InMem(node)));
    }
    node
}

fn resident_chain(depth: usize) -> Arc<Node> {
    let mut node = Arc::new(OverlayNode::new().as_final());
    for _ in 0..depth {
        node = Arc::new(OverlayNode::new().with_child(b'x', Child::InMem(node)));
    }
    node
}

#[test]
fn authority_loss_rebases_with_one_disk_decode_and_no_false_absence() {
    let disk_ptr = SwizzledPtr::on_disk(7, 41, NodeType::Node4);
    let root_node = Arc::new(Node::new().with_child(b'x', Child::OnDisk(disk_ptr)));
    let harness = bound_harness(root_node);

    let found = harness
        .find_leaf_faulting(&harness.root, b"x", 4)
        .expect("fault read succeeds")
        .expect("retirement race must not report absence");
    assert!(found.is_final());
    assert_eq!(harness.loads.get(), 1);
    let published = harness.root.load_revision().expect("faulted root");
    assert!(published.eviction_binding().is_none());
    assert!(matches!(
        published.node().find_child(b'x'),
        Some(Child::InMem(_))
    ));
}

#[test]
fn fault_spine_reservation_failure_preserves_root_and_registry_authority() {
    const PREFIX_LEN: usize = 17;

    let disk_ptr = SwizzledPtr::on_disk(7, 43, NodeType::Node4);
    let mut key = vec![b'x'; PREFIX_LEN];
    key.push(b'z');
    let harness = bound_harness(resident_prefix_with_disk_tail(PREFIX_LEN, &disk_ptr));
    let before = harness.root.load_revision().expect("bound root");

    let error = match harness.find_leaf_faulting_on(&harness.root, &key, 4, false) {
        Ok(_) => panic!("the first inline-spine spill must fail"),
        Err(error) => error,
    };

    assert!(matches!(
        error,
        PersistentARTrieError::AllocationFailed {
            operation,
            requested_entries,
            source: CollectionAllocationError::CapacityOverflow,
        } if operation == "overlay fault-in path" && requested_entries == key.len()
    ));
    assert_eq!(harness.loads.get(), 0);
    let after = harness.root.load_revision().expect("unchanged bound root");
    assert!(before.same_revision(&after));
    assert!(before
        .eviction_binding()
        .zip(after.eviction_binding())
        .is_some_and(|(before, after)| before.same_publication(&after)));
    assert!(harness
        .prepare_overlay_fault_commit(&after, &key, &disk_ptr)
        .is_some());
    assert!(harness.overlay_has_coordinator());
}

#[test]
fn resident_fault_walk_is_stack_safe_across_inline_and_extreme_depths() {
    for depth in [16, 17, 64, 100_000] {
        let harness = RetirementFaultHarness::new(
            AtomicNodePtr::new_with_term_count(resident_chain(depth), 1),
            None,
        );
        let key = vec![b'x'; depth];
        let found = harness
            .find_leaf_faulting(&harness.root, &key, 0)
            .expect("resident read succeeds")
            .expect("resident final node exists");
        assert!(found.is_final());
        assert_eq!(harness.loads.get(), 0);
        drop(found);
        release_tree(harness.root.take().expect("root"));
    }
}

#[test]
fn a_long_key_with_a_short_walk_needs_no_spill() {
    let harness = RetirementFaultHarness::new(
        AtomicNodePtr::new_with_term_count(resident_chain(3), 1),
        None,
    );
    let key = vec![b'x'; 40];
    assert!(harness
        .find_leaf_faulting_on(&harness.root, &key, 0, false)
        .expect("the edge is missing early")
        .is_none());
    assert_eq!(harness.loads.get(), 0);
    let root = harness.root.load_revision().expect("root");
    assert!(matches!(
        walk_to_durable_on(OverlayPathSpine::without_spill(), root.node(), &key),
        Ok(FaultWalk::Missing)
    ));
}

#[test]
fn a_load_under_a_standing_registry_keeps_the_binding() {
    let disk_ptr = SwizzledPtr::on_disk(7, 41, NodeType::Node4);
    let root_node = Arc::new(Node::new().with_child(b'x', Child::OnDisk(disk_ptr)));
    let mut harness = bound_harness(root_node);
    harness.retires = false;
    let found = harness
        .find_leaf_faulting(&harness.root, b"x", 4)
        .expect("read")
        .expect("term");
    assert!(found.is_final());
    assert_eq!(harness.loads.get(), 1);
    assert_eq!(harness.attempts.get(), 1);
    let published = harness.root.load_revision().expect("root");
    let bound = published.eviction_binding().expect("still bound");
    assert!(harness
        .coordinator
        .borrow()
        .as_ref()
        .is_some_and(|binding| binding.same_publication(&bound)));
    assert!(matches!(
        published.node().find_child(b'x'),
        Some(Child::InMem(_))
    ));
    assert!(harness
        .find_leaf_faulting(&harness.root, b"y", 4)
        .expect("read")
        .is_none());
}

#[test]
fn an_eviction_batch_is_published_with_its_residency() {
    let ptr = SwizzledPtr::on_disk(1, 10, NodeType::Node4);
    let leaf = Arc::new(Node::new().with_durable_stamp(ptr.to_raw()));
    let root_node = Arc::new(Node::new().with_child(b'a', Child::InMem(leaf)));
    let harness = bound_harness(root_node);
    let mut registry = DiskLocationRegistry::new();
    registry
        .register(b"a", ptr, 29, 1, NodeType::Node4)
        .expect("record");
    let batch = registry.into_batch(CompactEvictionPolicy::DescendantFirst);
    assert_eq!(harness.evict_overlay_batch(&batch, 3), (1, 29));
    let published = harness.root.load_revision().expect("root");
    match published.node().find_child(b'a') {
        Some(Child::OnDisk(actual)) => assert_eq!(actual.to_raw(), ptr.to_raw()),
        _ => panic!("the child left memory"),
    }
    assert_eq!(harness.evict_overlay_batch(&batch, 3), (0, 0));
    harness.coordinator.borrow_mut().take();
    assert_eq!(harness.evict_overlay_batch(&batch, 3), (0, 0));
}

#[test]
fn the_plan_of_a_load_follows_the_state_of_the_root() {
    assert_eq!(plan_fault(true, true, true), FaultPlan::PublishExact);
    assert_eq!(plan_fault(true, false, false), FaultPlan::Rebase);
    assert_eq!(plan_fault(true, false, true), FaultPlan::Retain);
    assert_eq!(plan_fault(false, false, true), FaultPlan::PublishUnbound);
}

#[test]
fn a_walk_over_records_in_memory_reaches_every_term() {
    let low = SwizzledPtr::on_disk(1, 1, NodeType::Node4);
    let high = SwizzledPtr::on_disk(1, 2, NodeType::Node4);
    let records = MemoryRecords::<ByteKey, u64>::new()
        .with_record(low, Arc::new(Node::new().as_final().with_value(5)))
        .with_record(
            high,
            Arc::new(Node::new().with_child(b'b', Child::OnDisk(low))),
        );
    let root = Arc::new(Node::new().with_child(b'a', Child::OnDisk(high)));
    let leaf = walk_faulting_snapshot(&records, Arc::clone(&root), b"ab", 0)
        .expect("read")
        .expect("term");
    assert_eq!(leaf.get_value(), Some(5));
    assert!(walk_faulting_snapshot(&records, Arc::clone(&root), b"ac", 0)
        .expect("read")
        .is_none());
    assert!(records
        .fault_overlay_slot(&SwizzledPtr::on_disk(9, 9, NodeType::Node4))
        .is_none());

    match walk_to_durable(&root, b"ab") {
        Ok(FaultWalk::Durable {
            spine,
            parent,
            depth,
            ptr,
        }) => {
            assert_eq!(depth, 0);
            assert_eq!(ptr, high);
            let loaded = records.try_fault_overlay_slot(&ptr).expect("record");
            let spliced = splice_loaded(spine, parent, b'a', loaded);
            assert!(matches!(spliced.find_child(b'a'), Some(Child::InMem(_))));
        }
        _ => panic!("the walk ends at a durable child"),
    }
    assert!(matches!(walk_to_durable(&root, b"q"), Ok(FaultWalk::Missing)));
}

#[test]
fn an_unreadable_record_fails_the_read() {
    let missing = SwizzledPtr::on_disk(3, 3, NodeType::Node4);
    let records = MemoryRecords::<ByteKey, u64>::new();
    let root = Arc::new(Node::new().with_child(b'a', Child::OnDisk(missing)));
    assert!(matches!(
        walk_faulting_snapshot(&records, root, b"a", 0),
        Err(PersistentARTrieError::CorruptedFile { .. })
    ));
}

#[test]
fn only_a_published_round_takes_something_out_of_memory() {
    assert_eq!(totals_of(None), (0, 0));
    assert_eq!(totals_of(Some(ExactEvictionOutcome::AuthorityLost)), (0, 0));
    assert_eq!(totals_of(Some(ExactEvictionOutcome::RootAdvanced)), (0, 0));
    assert_eq!(
        totals_of(Some(ExactEvictionOutcome::Committed(3, 40))),
        (3, 40)
    );
    assert!(loaded::<ByteKey, u64>(Err(PersistentARTrieError::corrupted("gone"))).is_none());
    assert!(loaded(Ok(Arc::new(Node::new()))).is_some());
}

#[test]
fn a_list_with_room_is_empty_and_takes_what_it_has_room_for() {
    let mut list = SuccessfulCandidateIndices::with_room(5).expect("room for a few");
    assert!(list.is_empty());
    for index in 0..5 {
        list.push(index * 10);
    }
    assert_eq!(list.len(), 5);
    assert_eq!(list.get(4), Some(40));
    assert!(SuccessfulCandidateIndices::with_room(usize::MAX).is_err());
    assert!(list.try_reserve_exact(usize::MAX).is_err());
    assert_eq!(list.get(0), Some(0));
}
