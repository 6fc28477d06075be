use std::cell::Cell;
use std::sync::Arc;

use persistent_artrie::key_encoding::{ByteKey, CharKey, KeyEncoding};
use persistent_artrie::overlay::atomic_ptr::{
    address_or_zero, cas_verdict, count_of, counted_root, fresh_revision, held_revision,
    init_verdict, root_of, semantic_successor, AtomicNodePtr, CasVerdict, DeferredDurableStamp,
    PreparedRootBinding, PublishedRoot,
};
use persistent_artrie::overlay::node::{Child, OverlayNode};
use persistent_artrie::overlay::residency::{
    cleared_path_hashes, EvictionBinding, PackedResidencyDelta, PreparedPackedResidency,
    PublishedRegistryCatalog, ResidencyHelpOutcome, RootEvictionRevision,
};
use persistent_artrie::swizzled_ptr::{NodeType, SwizzledPtr};

type ByteNode = OverlayNode<ByteKey, ()>;
type ByteAtomicNodePtr = AtomicNodePtr<ByteKey, ()>;
type CharNode = OverlayNode<CharKey, ()>;
type CharAtomicNodePtr = AtomicNodePtr<CharKey, ()>;

fn empty_catalog(binding: EvictionBinding) -> Arc<PublishedRegistryCatalog> {
    Arc::new(PublishedRegistryCatalog::empty_for_binding(binding))
}

#[test]
fn semantic_root_wrapper_remains_three_machine_words() {
    assert_eq!(
        std::mem::size_of::<PublishedRoot<ByteKey, ()>>(),
        3 * std::mem::size_of::<usize>(),
        "optional eviction state must remain pointer-sized so semantic CAS allocations do not change size class"
    );
}

#[test]
fn residency_publication_metadata_stays_within_qualified_size_classes() {
    let word = std::mem::size_of::<usize>();
    assert!(
        std::mem::size_of::<RootEvictionRevision>() <= 8 * word,
        "root-carried residency authority must remain compact"
    );
    assert!(
        std::mem::size_of::<PreparedPackedResidency>() <= 10 * word,
        "transient sparse/rebased preparation must not accumulate catalog payloads"
    );
    assert!(
        std::mem::size_of::<PublishedRegistryCatalog>() <= 40 * word,
        "published catalog must retain only operational metadata and two packed arrays"
    );
}

#[test]
fn test_new_and_load_byte() {
    let node = Arc::new(ByteNode::new());
    let ptr = ByteAtomicNodePtr::new(node);
    let loaded = ptr.load().expect("should load");
    assert_eq!(loaded.num_children(), 0);
}

#[test]
fn test_null_pointer_char() {
    let ptr = CharAtomicNodePtr::null();
    assert!(ptr.is_null());
    assert!(ptr.load().is_none());
}

#[test]
fn test_store_byte() {
    let node1 = Arc::new(ByteNode::new());
    let child = Child::OnDisk(SwizzledPtr::on_disk(1, 100, NodeType::Node4));
    let node2 = Arc::new(node1.with_child(b'a', child));
    let ptr = ByteAtomicNodePtr::new(node1);
    assert_eq!(ptr.load().expect("should load").num_children(), 0);
    ptr.store(node2);
    assert_eq!(ptr.load().expect("should load").num_children(), 1);
}

#[test]
fn test_take_char() {
    let node = Arc::new(CharNode::new());
    let ptr = CharAtomicNodePtr::new(node);
    assert!(!ptr.is_null());
    let taken = ptr.take();
    assert!(taken.is_some());
    assert!(ptr.is_null());
    assert!(ptr.take().is_none());
}

#[test]
fn test_compare_exchange_success_byte() {
    let node1 = Arc::new(ByteNode::new());
    let child = Child::OnDisk(SwizzledPtr::on_disk(1, 100, NodeType::Node4));
    let node2 = Arc::new(node1.with_child(b'a', child));
    let ptr = ByteAtomicNodePtr::new(node1.clone());
    assert!(ptr.compare_exchange(&node1, node2).is_ok());
    assert_eq!(ptr.load().expect("should load").num_children(), 1);
}

#[test]
fn test_compare_exchange_failure_char() {
    let node1 = Arc::new(CharNode::new());
    let child = Child::OnDisk(SwizzledPtr::on_disk(1, 100, NodeType::CharNode4));
    let node2 = Arc::new(node1.with_child('a' as u32, child));
    let node3 = Arc::new(CharNode::new());
    let ptr = CharAtomicNodePtr::new(node1.clone());
    assert!(ptr.compare_exchange(&node1, node2).is_ok());
    let result = ptr.compare_exchange(&node1, node3);
    assert!(result.is_err());
    assert_eq!(ptr.load().expect("should load").num_children(), 1);
}

#[test]
fn counted_cas_publishes_root_and_cardinality_together() {
    let node0 = Arc::new(ByteNode::new());
    let node1 = Arc::new(node0.as_final());
    let node2 = Arc::new(node1.as_non_final());
    let ptr = ByteAtomicNodePtr::new_with_term_count(Arc::clone(&node0), 0);

    assert!(ptr
        .compare_exchange_counted(&node0, Arc::clone(&node1), 1)
        .is_ok());
    let (published, count) = ptr.load_with_term_count().expect("revision");
    assert!(Arc::ptr_eq(&published, &node1));
    assert_eq!(count, 1);

    assert!(ptr
        .compare_exchange_counted(&node0, Arc::clone(&node2), -1)
        .is_err());
    let (published, count) = ptr.load_with_term_count().expect("revision");
    assert!(Arc::ptr_eq(&published, &node1));
    assert_eq!(count, 1, "a losing CAS cannot adjust cardinality");

    assert!(ptr
        .compare_exchange_counted(&node1, Arc::clone(&node2), -1)
        .is_ok());
    let (published, count) = ptr.load_with_term_count().expect("revision");
    assert!(Arc::ptr_eq(&published, &node2));
    assert_eq!(count, 0);
}

#[test]
fn checkpoint_binding_is_an_exact_metadata_revision() {
    let node = Arc::new(ByteNode::new());
    let ptr = ByteAtomicNodePtr::new_with_term_count(Arc::clone(&node), 7);
    let captured = ptr.load_revision().expect("captured revision");
    let binding = EvictionBinding::new();
    let prepared = ByteAtomicNodePtr::prepare_checkpoint_binding(
        &captured,
        empty_catalog(binding.clone()),
        0,
        0,
    );

    assert!(ptr.publish_checkpoint_binding(&prepared).is_ok());
    let published = ptr.load_revision().expect("bound revision");
    assert!(!captured.same_revision(&published));
    assert!(Arc::ptr_eq(captured.node(), published.node()));
    assert_eq!(published.term_count(), 7);
    assert!(published
        .eviction_binding()
        .is_some_and(|actual| actual.same_publication(&binding)));
}

#[test]
fn stale_semantic_cas_loses_to_checkpoint_binding_then_retry_clears_it() {
    let node = Arc::new(ByteNode::new());
    let ptr = ByteAtomicNodePtr::new_with_term_count(Arc::clone(&node), 0);
    let stale = ptr.load_revision().expect("stale writer revision");
    let binding = EvictionBinding::new();
    let prepared = ByteAtomicNodePtr::prepare_checkpoint_binding(
        &stale,
        empty_catalog(binding.clone()),
        0,
        0,
    );
    assert!(ptr.publish_checkpoint_binding(&prepared).is_ok());

    let inserted = Arc::new(node.as_final());
    assert!(ptr
        .compare_exchange_revision_counted(&stale, Arc::clone(&inserted), 1)
        .is_err());

    let retry = ptr.load_revision().expect("writer retry revision");
    assert!(retry
        .eviction_binding()
        .is_some_and(|actual| actual.same_publication(&binding)));
    assert!(ptr
        .compare_exchange_revision_counted(&retry, Arc::clone(&inserted), 1)
        .is_ok());
    let published = ptr.load_revision().expect("semantic revision");
    assert!(Arc::ptr_eq(published.node(), &inserted));
    assert_eq!(published.term_count(), 1);
    assert!(published.eviction_binding().is_none());
}

#[test]
fn structural_cas_requires_and_preserves_exact_binding() {
    let node = Arc::new(ByteNode::new());
    let ptr = ByteAtomicNodePtr::new(Arc::clone(&node));
    let initial = ptr.load_revision().expect("initial revision");
    let binding = EvictionBinding::new();
    let prepared = ByteAtomicNodePtr::prepare_checkpoint_binding(
        &initial,
        empty_catalog(binding.clone()),
        0,
        0,
    );
    assert!(ptr.publish_checkpoint_binding(&prepared).is_ok());

    let bound = ptr.load_revision().expect("bound revision");
    let wrong = EvictionBinding::new();
    let structural = Arc::new(node.with_child(
        b'x',
        Child::OnDisk(SwizzledPtr::on_disk(1, 7, NodeType::Node4)),
    ));
    assert!(ByteAtomicNodePtr::prepare_bound_root_transition(
        &bound,
        &wrong,
        |_: &RootEvictionRevision| ResidencyHelpOutcome::Complete,
        Arc::clone(&structural),
    )
    .is_none());
    let transition = ByteAtomicNodePtr::prepare_bound_root_transition(
        &bound,
        &binding,
        |_: &RootEvictionRevision| ResidencyHelpOutcome::Complete,
        Arc::clone(&structural),
    )
    .expect("bound transition");
    assert!(ByteAtomicNodePtr::prepare_bound_root_transition(
        &bound,
        &binding,
        |_: &RootEvictionRevision| ResidencyHelpOutcome::Stale,
        Arc::clone(&structural),
    )
    .is_none());
    let helped = Cell::new(0);
    let help = |_: &RootEvictionRevision| {
        helped.set(helped.get() + 1);
        ResidencyHelpOutcome::Complete
    };
    assert!(ptr.publish_bound_root_transition(&transition, help).is_ok());
    assert_eq!(helped.get(), 1);
    assert!(ptr.publish_bound_root_transition(&transition, help).is_err());
    assert_eq!(helped.get(), 1);
    let published = ptr.load_revision().expect("structural revision");
    assert!(Arc::ptr_eq(published.node(), &structural));
    assert!(published
        .eviction_binding()
        .is_some_and(|actual| actual.same_publication(&binding)));
}

#[test]
fn test_try_init_byte() {
    let ptr = ByteAtomicNodePtr::null();
    let node = Arc::new(ByteNode::new());
    assert!(ptr.try_init(node).is_ok());
    assert!(!ptr.is_null());

    let other = Arc::new(ByteNode::new());
    assert!(ptr.try_init(other).is_err());
}

#[test]
fn test_clone_char() {
    let child = Child::OnDisk(SwizzledPtr::on_disk(1, 100, NodeType::CharNode4));
    let node = Arc::new(CharNode::new().with_child('a' as u32, child));
    let ptr1 = CharAtomicNodePtr::new(node);
    let ptr2 = ptr1.clone();
    assert_eq!(ptr1.load().expect("load").num_children(), 1);
    assert_eq!(ptr2.load().expect("load").num_children(), 1);
}

/// `compare_exchange` succeeds only against the currently-stored Arc, and a stale
/// `expected` is rejected with the actual value returned.
fn check_cas_contract<K: KeyEncoding>() {
    let n1 = Arc::new(OverlayNode::<K, ()>::new());
    let n2 = Arc::new(n1.as_final());
    let n3 = Arc::new(OverlayNode::<K, ()>::new());
    let ptr = AtomicNodePtr::<K, ()>::new(Arc::clone(&n1));

    assert!(ptr.compare_exchange(&n3, Arc::clone(&n2)).is_err());
    assert!(ptr.compare_exchange(&n1, Arc::clone(&n2)).is_ok());
    let actual = match ptr.compare_exchange(&n1, Arc::clone(&n3)) {
        Ok(_) => panic!("stale expected after a winning CAS must fail"),
        Err(actual) => actual,
    };
    assert!(Arc::ptr_eq(&actual, &n2));
}

/// Eight writers read the same root and then race for it, sixty-four times: exactly
/// one of them wins each round.
fn check_concurrent_cas<K: KeyEncoding>()
where
    K::Unit: TryFrom<u32>,
    <K::Unit as TryFrom<u32>>::Error: std::fmt::Debug,
{
    let ptr = AtomicNodePtr::<K, ()>::new(Arc::new(OverlayNode::<K, ()>::new()));
    let mut total: usize = 0;
    for i in 0..64u32 {
        let seen: Vec<Arc<OverlayNode<K, ()>>> = (0..8u32)
            .map(|_| {
                ptr.load()
                    .unwrap_or_else(|| Arc::new(OverlayNode::<K, ()>::new()))
            })
            .collect();
        let mut wins = 0;
        for t in 0..8u32 {
            let cur = &seen[t as usize];
            let key = K::Unit::try_from((t * 64 + i) % 250).expect("unit fits");
            let child = Child::OnDisk(SwizzledPtr::on_disk(t * 64 + i, 0, NodeType::Node4));
            let next = Arc::new(cur.with_child(key, child));
            if ptr.compare_exchange(cur, next).is_ok() {
                wins += 1;
            }
        }
        assert_eq!(wins, 1);
        total += wins;
    }
    assert!(total > 0, "at least one CAS must win");
    assert!(ptr.load().expect("final load").num_children() > 0);
}

/// Constructing and dropping many pointers leaks nothing (no panic / no UAF).
fn check_no_leak_churn<K: KeyEncoding>() {
    for _ in 0..500 {
        let ptr = AtomicNodePtr::<K, ()>::new(Arc::new(OverlayNode::<K, ()>::new()));
        drop(ptr);
    }
}

#[test]
fn generic_cas_contract_byte() {
    check_cas_contract::<ByteKey>();
}

#[test]
fn generic_cas_contract_char() {
    check_cas_contract::<CharKey>();
}

#[test]
fn generic_concurrent_cas_byte() {
    check_concurrent_cas::<ByteKey>();
}

#[test]
fn generic_concurrent_cas_char() {
    check_concurrent_cas::<CharKey>();
}

#[test]
fn generic_no_leak_churn_byte() {
    check_no_leak_churn::<ByteKey>();
}

#[test]
fn generic_no_leak_churn_char() {
    check_no_leak_churn::<CharKey>();
}

#[test]
fn dropping_a_slot_releases_its_root() {
    let node = Arc::new(ByteNode::new());
    let ptr = ByteAtomicNodePtr::new(Arc::clone(&node));
    assert!(Arc::strong_count(&node) >= 2);
    drop(ptr);
    assert_eq!(Arc::strong_count(&node), 1);
}

#[test]
fn a_count_that_would_leave_its_range_is_refused() {
    let node = Arc::new(ByteNode::new());
    let ptr = ByteAtomicNodePtr::new_with_term_count(Arc::clone(&node), 0);
    let next = Arc::new(node.as_final());
    assert!(ptr.compare_exchange_counted(&node, Arc::clone(&next), -1).is_err());
    assert_eq!(ptr.term_count(), 0);
    assert!(Arc::ptr_eq(&ptr.load().expect("root"), &node));

    let current = PublishedRoot {
        node: Arc::clone(&node),
        term_count: usize::MAX,
        eviction: None,
    };
    assert!(semantic_successor(&current, Arc::clone(&next), 1).is_none());
    let kept = semantic_successor(&current, next, -3).expect("in range");
    assert_eq!(kept.term_count, usize::MAX - 3);
    assert!(kept.eviction.is_none());
}

#[test]
fn an_empty_slot_hands_back_an_empty_root() {
    let ptr = ByteAtomicNodePtr::default();
    let node = Arc::new(ByteNode::new().as_final());
    match ptr.compare_exchange_weak(&node, Arc::clone(&node)) {
        Ok(_) => panic!("an empty slot cannot hold the expected root"),
        Err(actual) => {
            assert!(!actual.is_final());
            assert_eq!(actual.num_children(), 0);
        }
    }
    assert_eq!(ptr.as_raw(), 0);
    ptr.store_with_term_count(Arc::clone(&node), 4);
    assert_eq!(ptr.term_count(), 4);
    assert_eq!(ptr.as_raw(), Arc::as_ptr(&node) as u64);
    ptr.store(Arc::new(ByteNode::new()));
    assert_eq!(ptr.term_count(), 4);
}

#[test]
fn the_outcome_of_an_exchange_is_read_off_the_former_content() {
    let ptr = ByteAtomicNodePtr::new(Arc::new(ByteNode::new()));
    let expected = ptr.load_revision().expect("revision");
    match cas_verdict(&expected, Some(Arc::clone(&expected.published))) {
        CasVerdict::Won(revision) => assert!(revision.same_revision(&expected)),
        _ => panic!("the expected revision was replaced"),
    }
    let other = ByteAtomicNodePtr::new(Arc::new(ByteNode::new()))
        .load_revision()
        .expect("revision");
    match cas_verdict(&expected, Some(Arc::clone(&other.published))) {
        CasVerdict::Lost(revision) => assert!(revision.same_revision(&other)),
        _ => panic!("another revision was there"),
    }
    assert!(matches!(cas_verdict(&expected, None), CasVerdict::Empty));
}

#[test]
fn retirement_releases_an_unchanged_root() {
    let node = Arc::new(ByteNode::new());
    let ptr = ByteAtomicNodePtr::new_with_term_count(Arc::clone(&node), 3);
    let initial = ptr.load_revision().expect("initial revision");
    let binding = EvictionBinding::new();
    let prepared =
        ByteAtomicNodePtr::prepare_checkpoint_binding(&initial, empty_catalog(binding.clone()), 5, 70);
    assert!(prepared.binding().is_some_and(|actual| actual.same_publication(&binding)));
    assert!(ptr.publish_checkpoint_binding(&prepared).is_ok());
    let bound = ptr.load_revision().expect("bound revision");
    assert_eq!(
        bound.eviction_revision().expect("state").resident_totals(),
        (5, 70)
    );
    assert!(bound
        .help_eviction_revision(|_: &RootEvictionRevision| ResidencyHelpOutcome::Stale)
        .is_none());
    assert!(bound
        .help_eviction_revision(|_: &RootEvictionRevision| ResidencyHelpOutcome::Complete)
        .is_some_and(|state| state.resident_totals() == (5, 70)));
    assert!(initial
        .help_eviction_revision(|_: &RootEvictionRevision| unreachable!("not bound"))
        .is_none());
    let release = ByteAtomicNodePtr::prepare_retirement_detachment(&bound);
    assert!(ptr.publish_retirement_detachment(&release).is_ok());
    let released = ptr.load_revision().expect("released revision");
    assert!(released.eviction_binding().is_none());
    assert_eq!(released.term_count(), 3);
    assert!(Arc::ptr_eq(released.node(), &node));
    assert!(ptr.publish_retirement_detachment(&release).is_err());
}

#[test]
fn a_residency_change_fits_only_the_state_it_was_prepared_against() {
    let node = Arc::new(ByteNode::new());
    let ptr = ByteAtomicNodePtr::new(Arc::clone(&node));
    let initial = ptr.load_revision().expect("initial revision");
    let catalog = Arc::new(PublishedRegistryCatalog {
        binding: EvictionBinding::new(),
        path_hashes: vec![11, 22, 33],
    });
    let binding = PreparedRootBinding {
        expected: initial.alias(),
        next: Arc::new(PublishedRoot {
            node: Arc::clone(&node),
            term_count: 0,
            eviction: Some(Arc::new(RootEvictionRevision {
                catalog: Arc::clone(&catalog),
                predecessor_ordinal: u32::MAX,
                ordinal: u32::MAX,
                resident_nodes: 9,
                resident_serialized_bytes: 900,
                delta: PackedResidencyDelta::Unchanged,
            })),
        }),
    };
    assert!(ptr.publish_checkpoint_binding(&binding).is_ok());
    let bound = ptr.load_revision().expect("bound revision");
    let change = |predecessor: u32, token: &EvictionBinding| PreparedPackedResidency {
        catalog: Arc::new(PublishedRegistryCatalog {
            binding: token.clone(),
            path_hashes: vec![11, 22, 33],
        }),
        predecessor_ordinal: predecessor,
        target_ordinal: 0,
        resident_nodes: 7,
        resident_serialized_bytes: 600,
        delta: PackedResidencyDelta::Cleared(vec![2, 0]),
    };
    let rewritten = Arc::new(node.as_final());
    assert!(ByteAtomicNodePtr::prepare_exact_root_transition(
        &bound,
        Arc::clone(&rewritten),
        change(3, &catalog.binding)
    )
    .is_none());
    assert!(ByteAtomicNodePtr::prepare_exact_root_transition(
        &bound,
        Arc::clone(&rewritten),
        change(u32::MAX, &EvictionBinding::new())
    )
    .is_none());
    let transition = ByteAtomicNodePtr::prepare_exact_root_transition(
        &bound,
        Arc::clone(&rewritten),
        change(u32::MAX, &catalog.binding),
    )
    .expect("exact transition");
    assert_eq!(transition.evicted_totals(), Some((2, 300)));
    let helped = Cell::new(None);
    assert!(ptr
        .publish_bound_root_transition(&transition, |state: &RootEvictionRevision| {
            helped.set(Some((state.predecessor_ordinal, state.ordinal)));
            ResidencyHelpOutcome::Complete
        })
        .is_ok());
    assert_eq!(helped.get(), Some((u32::MAX, 0)));
    let published = ptr.load_revision().expect("published");
    let state = published.eviction_revision().expect("state");
    assert_eq!(state.ordinal, 0);
    assert_eq!(cleared_path_hashes(state), (vec![33, 11], true));
}

#[test]
fn a_deferred_stamp_makes_a_stamped_copy() {
    let node = Arc::new(ByteNode::new().as_final());
    let stamp = DeferredDurableStamp::new(Arc::clone(&node), 77);
    let stamped = stamp.apply();
    assert_eq!(stamped.durable_stamp(), 77);
    assert!(stamped.is_final());
    assert_eq!(node.durable_stamp(), 0);
}

#[test]
fn what_a_slot_held_is_read_off_its_content() {
    let node = Arc::new(ByteNode::new().as_final());
    let published = Arc::new(fresh_revision(Arc::clone(&node), 6));
    assert!(published.eviction.is_none());
    let held = held_revision(Some(Arc::clone(&published)));
    assert!(Arc::ptr_eq(&root_of(&held).expect("root"), &node));
    let (root, count) = counted_root(&held).expect("root");
    assert!(Arc::ptr_eq(&root, &node));
    assert_eq!(count, 6);
    assert_eq!(count_of(&held), 6);
    assert_eq!(
        address_or_zero(&Some(Arc::clone(&node))),
        Arc::as_ptr(&node) as u64
    );

    let empty = held_revision::<ByteKey, ()>(None);
    assert!(root_of(&empty).is_none());
    assert!(counted_root(&empty).is_none());
    assert_eq!(count_of(&empty), 0);
    assert_eq!(address_or_zero::<ByteKey, ()>(&None), 0);

    assert!(init_verdict::<ByteKey, ()>(None).is_ok());
    match init_verdict(Some(published)) {
        Ok(()) => panic!("the slot held a root"),
        Err(actual) => assert!(Arc::ptr_eq(&actual, &node)),
    }
}
