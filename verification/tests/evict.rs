use std::sync::Arc;

use persistent_artrie::eviction::{
    CompactEvictionBatch, CompactEvictionPolicy, RegistryPathId,
};
use persistent_artrie::key_encoding::ByteKey;
use persistent_artrie::overlay::evict::{
    build_batch_ancestor_replacement_into, build_batch_replacement_into,
    build_chain_ancestor_replacement_into, build_chain_replacement_into, ChainWalkFrame,
};
use persistent_artrie::overlay::evict_chain_plan::build_chain_plan;
use persistent_artrie::overlay::evict_plan::{build_batch_plan, BatchPlanNode};
use persistent_artrie::overlay::indices::SuccessfulCandidateIndices;
use persistent_artrie::overlay::node::{release_tree, Child, OverlayNode};
use persistent_artrie::registry::DiskLocationRegistry;
use persistent_artrie::swizzled_ptr::{NodeType, SwizzledPtr};

type Node = OverlayNode<ByteKey, u64>;

fn disk(offset: u32) -> SwizzledPtr {
    SwizzledPtr::on_disk(1, offset, NodeType::Node4)
}

fn stamped_leaf(ptr: &SwizzledPtr) -> Arc<Node> {
    Arc::new(Node::new().with_durable_stamp(ptr.to_raw()))
}

fn ok<T>(result: persistent_artrie::error::TrieResult<T>) -> T {
    match result {
        Ok(value) => value,
        Err(_) => panic!("the registry refused an entry"),
    }
}

fn selected_batch(entries: &[(&[u8], SwizzledPtr)]) -> CompactEvictionBatch<u8> {
    let mut registry = DiskLocationRegistry::new();
    for (path, ptr) in entries {
        ok(registry.register(path, ptr.clone(), 1, path.len(), NodeType::Node4));
    }
    ok(registry.try_finalize_for_publication());
    let batch = registry.into_batch(CompactEvictionPolicy::DescendantFirst);
    assert_eq!(batch.candidates.len(), entries.len());
    batch
}

fn selected_chain_batch(entries: &[(u8, SwizzledPtr)]) -> CompactEvictionBatch<u8> {
    let mut registry = DiskLocationRegistry::new();
    let mut path_id = RegistryPathId::root();
    for (depth, (edge, pointer)) in entries.iter().enumerate() {
        path_id = ok(registry.reserve_path(path_id, &[*edge]));
        ok(registry.register_path(
            path_id,
            pointer.clone(),
            1,
            depth + 1,
            NodeType::Node4,
            true,
        ));
    }
    ok(registry.try_finalize_for_publication());
    let batch = registry.into_batch(CompactEvictionPolicy::DescendantFirst);
    assert_eq!(batch.candidates.len(), entries.len());
    batch
}

fn build_batch_replacement(
    root: &Arc<Node>,
    plan: &Vec<BatchPlanNode<u8>>,
    batch: &CompactEvictionBatch<u8>,
) -> Option<(Arc<Node>, SuccessfulCandidateIndices)> {
    let mut successful = SuccessfulCandidateIndices::new();
    let rebuilt = build_batch_replacement_into(root, plan, batch, &mut successful)?;
    Some((rebuilt, successful))
}

fn build_chain_replacement(
    root: &Arc<Node>,
    plan: &Vec<ChainWalkFrame<u8>>,
    batch: &CompactEvictionBatch<u8>,
) -> Option<(Arc<Node>, SuccessfulCandidateIndices)> {
    let mut successful = SuccessfulCandidateIndices::new();
    let rebuilt = build_chain_replacement_into(root, plan, batch, &mut successful)?;
    Some((rebuilt, successful))
}

fn successful_raws(
    batch: &CompactEvictionBatch<u8>,
    successful: &SuccessfulCandidateIndices,
) -> Vec<u64> {
    (0..successful.len())
        .map(|i| batch.candidates[successful.get(i).expect("index")].disk_ptr.to_raw())
        .collect()
}

fn state(root: &Node) -> (u64, u64) {
    match root.find_child(b'a').expect("ancestor slot") {
        Child::OnDisk(pointer) => (pointer.to_raw(), 0),
        Child::InMem(ancestor) => match ancestor.find_child(b'b').expect("descendant slot") {
            Child::OnDisk(pointer) => (0, pointer.to_raw()),
            Child::InMem(_) => (0, 0),
        },
    }
}

#[test]
fn batch_rebuilds_shared_root_once_for_siblings() {
    let a_ptr = disk(10);
    let b_ptr = disk(20);
    let a = stamped_leaf(&a_ptr);
    let b = stamped_leaf(&b_ptr);
    let root = Arc::new(
        Node::new()
            .with_child(b'a', Child::InMem(a))
            .with_child(b'b', Child::InMem(b)),
    );
    let old_version = root.version();
    let batch = selected_batch(&[(b"a", a_ptr.clone()), (b"b", b_ptr.clone())]);
    let plan = build_batch_plan::<ByteKey>(&batch).expect("valid sibling plan");
    let (rebuilt, successful) =
        build_batch_replacement(&root, &plan, &batch).expect("sibling rebuild");

    assert_eq!(successful.len(), 2);
    assert_eq!(rebuilt.version(), old_version + 2);
    for (edge, expected) in [(b'a', a_ptr), (b'b', b_ptr)] {
        match rebuilt.find_child(edge).expect("retained child slot") {
            Child::OnDisk(actual) => assert_eq!(actual.to_raw(), expected.to_raw()),
            Child::InMem(_) => panic!("selected sibling remained resident"),
        }
    }
}

#[test]
fn successful_descendant_suppresses_selected_ancestor() {
    let ancestor_ptr = disk(30);
    let descendant_ptr = disk(40);
    let descendant = stamped_leaf(&descendant_ptr);
    let ancestor = Arc::new(
        Node::new()
            .with_child(b'b', Child::InMem(descendant))
            .with_durable_stamp(ancestor_ptr.to_raw()),
    );
    let root = Arc::new(Node::new().with_child(b'a', Child::InMem(Arc::clone(&ancestor))));
    let batch = selected_batch(&[
        (b"a", ancestor_ptr.clone()),
        (b"ab", descendant_ptr.clone()),
    ]);
    let plan = build_batch_plan::<ByteKey>(&batch).expect("valid nested plan");
    let (rebuilt, successful) =
        build_batch_replacement(&root, &plan, &batch).expect("nested rebuild");

    assert_eq!(
        successful_raws(&batch, &successful),
        vec![descendant_ptr.to_raw()]
    );
    let Child::InMem(rebuilt_ancestor) = rebuilt.find_child(b'a').expect("ancestor slot") else {
        panic!("ancestor was incorrectly evicted after descendant publication");
    };
    assert_eq!(rebuilt_ancestor.durable_stamp(), 0);
    match rebuilt_ancestor.find_child(b'b').expect("descendant slot") {
        Child::OnDisk(actual) => assert_eq!(actual.to_raw(), descendant_ptr.to_raw()),
        Child::InMem(_) => panic!("valid descendant remained resident"),
    }
}

#[test]
fn stale_descendant_allows_independently_durable_ancestor() {
    let ancestor_ptr = disk(50);
    let stale_descendant_ptr = disk(60);
    let stale_descendant = Arc::new(Node::new());
    let ancestor = Arc::new(
        Node::new()
            .with_child(b'b', Child::InMem(stale_descendant))
            .with_durable_stamp(ancestor_ptr.to_raw()),
    );
    let root = Arc::new(Node::new().with_child(b'a', Child::InMem(ancestor)));
    let batch = selected_batch(&[(b"a", ancestor_ptr.clone()), (b"ab", stale_descendant_ptr)]);
    let plan = build_batch_plan::<ByteKey>(&batch).expect("valid nested plan");
    let (rebuilt, successful) =
        build_batch_replacement(&root, &plan, &batch).expect("nested rebuild");

    assert_eq!(
        successful_raws(&batch, &successful),
        vec![ancestor_ptr.to_raw()]
    );
    match rebuilt.find_child(b'a').expect("ancestor slot") {
        Child::OnDisk(actual) => assert_eq!(actual.to_raw(), ancestor_ptr.to_raw()),
        Child::InMem(_) => panic!("durable ancestor remained resident"),
    }
}

#[test]
fn chain_pda_matches_general_leaf_first_and_stale_fallback() {
    for descendant_is_durable in [false, true] {
        let ancestor_ptr = disk(61);
        let descendant_ptr = disk(62);
        let descendant = if descendant_is_durable {
            stamped_leaf(&descendant_ptr)
        } else {
            Arc::new(Node::new())
        };
        let ancestor = Arc::new(
            Node::new()
                .with_child(b'b', Child::InMem(descendant))
                .with_durable_stamp(ancestor_ptr.to_raw()),
        );
        let root = Arc::new(Node::new().with_child(b'a', Child::InMem(ancestor)));
        let batch = selected_chain_batch(&[
            (b'a', ancestor_ptr.clone()),
            (b'b', descendant_ptr.clone()),
        ]);

        let general_plan = build_batch_plan::<ByteKey>(&batch).expect("general chain plan");
        let (general_root, general_successful) =
            build_batch_replacement(&root, &general_plan, &batch).expect("general chain rebuild");
        let chain_plan = build_chain_plan::<ByteKey>(&batch).expect("specialized chain plan");
        let (chain_root, chain_successful) =
            build_chain_replacement(&root, &chain_plan, &batch).expect("specialized chain rebuild");

        assert_eq!(
            successful_raws(&batch, &chain_successful),
            successful_raws(&batch, &general_successful)
        );
        assert_eq!(state(&chain_root), state(&general_root));
        let expected = if descendant_is_durable {
            (0, descendant_ptr.to_raw())
        } else {
            (ancestor_ptr.to_raw(), 0)
        };
        assert_eq!(state(&chain_root), expected);
    }
}

#[test]
fn resident_chain_policy_prefers_exact_ancestor_and_falls_back_when_stale() {
    for ancestor_is_exact in [true, false] {
        let ancestor_ptr = disk(63);
        let descendant_ptr = disk(64);
        let descendant = stamped_leaf(&descendant_ptr);
        let mut ancestor = Node::new().with_child(b'b', Child::InMem(descendant));
        if ancestor_is_exact {
            ancestor = ancestor.with_durable_stamp(ancestor_ptr.to_raw());
        }
        let ancestor = Arc::new(ancestor);
        let root = Arc::new(Node::new().with_child(b'a', Child::InMem(Arc::clone(&ancestor))));
        let batch = selected_chain_batch(&[
            (b'a', ancestor_ptr.clone()),
            (b'b', descendant_ptr.clone()),
        ]);
        let plan = build_chain_plan::<ByteKey>(&batch).expect("resident chain plan");
        let mut successful = SuccessfulCandidateIndices::new();
        assert!(successful.try_reserve_exact(batch.candidates.len()).is_ok());
        let rebuilt = build_chain_ancestor_replacement_into(&root, &plan, &batch, &mut successful)
            .expect("resident chain replacement");

        let expected = if ancestor_is_exact {
            (ancestor_ptr.to_raw(), 0)
        } else {
            (0, descendant_ptr.to_raw())
        };
        assert_eq!(state(&rebuilt), expected);
        assert_eq!(successful.len(), 1);
        assert_eq!(
            batch.candidates[successful.get(0).expect("index")].disk_ptr.to_raw(),
            if ancestor_is_exact {
                ancestor_ptr.to_raw()
            } else {
                descendant_ptr.to_raw()
            }
        );
    }
}

#[test]
fn resident_branching_policy_prunes_valid_ancestor_subtrees() {
    let ancestor_ptr = disk(65);
    let descendant_ptr = disk(66);
    let sibling_ptr = disk(67);
    let descendant = stamped_leaf(&descendant_ptr);
    let ancestor = Arc::new(
        Node::new()
            .with_child(b'b', Child::InMem(descendant))
            .with_durable_stamp(ancestor_ptr.to_raw()),
    );
    let sibling = stamped_leaf(&sibling_ptr);
    let root = Arc::new(
        Node::new()
            .with_child(b'a', Child::InMem(ancestor))
            .with_child(b'x', Child::InMem(sibling)),
    );
    let batch = selected_batch(&[
        (b"a", ancestor_ptr.clone()),
        (b"ab", descendant_ptr),
        (b"x", sibling_ptr.clone()),
    ]);
    let plan = build_batch_plan::<ByteKey>(&batch).expect("resident branching plan");
    let mut successful = SuccessfulCandidateIndices::new();
    assert!(successful.try_reserve_exact(batch.candidates.len()).is_ok());
    let rebuilt = build_batch_ancestor_replacement_into(&root, &plan, &batch, &mut successful)
        .expect("resident branching replacement");

    assert_eq!(successful.len(), 2);
    match rebuilt.find_child(b'a').expect("ancestor slot") {
        Child::OnDisk(pointer) => assert_eq!(pointer.to_raw(), ancestor_ptr.to_raw()),
        Child::InMem(_) => panic!("valid selected ancestor remained resident"),
    }
    match rebuilt.find_child(b'x').expect("sibling slot") {
        Child::OnDisk(pointer) => assert_eq!(pointer.to_raw(), sibling_ptr.to_raw()),
        Child::InMem(_) => panic!("valid selected sibling remained resident"),
    }
}

#[test]
fn missing_and_already_on_disk_branches_do_not_block_valid_sibling() {
    let valid_ptr = disk(70);
    let already_disk_ptr = disk(80);
    let replacement_ptr = disk(90);
    let missing_ptr = disk(100);
    let valid = stamped_leaf(&valid_ptr);
    let root = Arc::new(
        Node::new()
            .with_child(b'a', Child::InMem(valid))
            .with_child(b'b', Child::OnDisk(already_disk_ptr.clone())),
    );
    let batch = selected_batch(&[
        (b"a", valid_ptr.clone()),
        (b"b", replacement_ptr),
        (b"c", missing_ptr),
    ]);
    let plan = build_batch_plan::<ByteKey>(&batch).expect("valid pruned plan");
    let (rebuilt, successful) =
        build_batch_replacement(&root, &plan, &batch).expect("pruned rebuild");

    assert_eq!(
        successful_raws(&batch, &successful),
        vec![valid_ptr.to_raw()]
    );
    match rebuilt.find_child(b'b').expect("existing on-disk sibling") {
        Child::OnDisk(actual) => assert_eq!(actual.to_raw(), already_disk_ptr.to_raw()),
        Child::InMem(_) => panic!("existing on-disk sibling was faulted"),
    }
}

#[test]
fn candidate_order_does_not_change_leaf_first_batch_semantics() {
    let ancestor_ptr = disk(101);
    let descendant_ptr = disk(102);
    let sibling_ptr = disk(103);
    let descendant = stamped_leaf(&descendant_ptr);
    let ancestor = Arc::new(
        Node::new()
            .with_child(b'b', Child::InMem(descendant))
            .with_durable_stamp(ancestor_ptr.to_raw()),
    );
    let sibling = stamped_leaf(&sibling_ptr);
    let root = Arc::new(
        Node::new()
            .with_child(b'a', Child::InMem(ancestor))
            .with_child(b'c', Child::InMem(sibling)),
    );

    for permutation in [
        [0usize, 1, 2],
        [0, 2, 1],
        [1, 0, 2],
        [1, 2, 0],
        [2, 0, 1],
        [2, 1, 0],
    ] {
        let mut batch = selected_batch(&[
            (b"a", ancestor_ptr.clone()),
            (b"ab", descendant_ptr.clone()),
            (b"c", sibling_ptr.clone()),
        ]);
        let mut candidates = Vec::with_capacity(batch.candidates.len());
        for index in permutation {
            candidates.push(batch.candidates[index].clone());
        }
        batch.candidates = candidates.into_iter().collect();

        let plan = build_batch_plan::<ByteKey>(&batch).expect("permuted plan");
        let (rebuilt, successful) =
            build_batch_replacement(&root, &plan, &batch).expect("permuted rebuild");
        let mut raws = successful_raws(&batch, &successful);
        raws.sort_unstable();
        assert_eq!(raws, vec![descendant_ptr.to_raw(), sibling_ptr.to_raw()]);

        let Child::InMem(rebuilt_ancestor) = rebuilt.find_child(b'a').expect("ancestor slot")
        else {
            panic!("successful descendant must suppress its selected ancestor");
        };
        assert_eq!(rebuilt_ancestor.durable_stamp(), 0);
        match rebuilt_ancestor.find_child(b'b').expect("descendant slot") {
            Child::OnDisk(actual) => {
                assert_eq!(actual.to_raw(), descendant_ptr.to_raw());
            }
            Child::InMem(_) => panic!("descendant remained resident"),
        }
        match rebuilt.find_child(b'c').expect("sibling slot") {
            Child::OnDisk(actual) => assert_eq!(actual.to_raw(), sibling_ptr.to_raw()),
            Child::InMem(_) => panic!("sibling remained resident"),
        }
    }
}

#[test]
fn batch_rebuild_branching_spine_is_stack_safe() {
    const DEPTH: usize = 4_096;
    let terminal_ptr = disk(200);
    let mut registry = DiskLocationRegistry::new();
    let mut continuation_path = RegistryPathId::root();
    let mut side_ptrs = Vec::with_capacity(DEPTH);
    for level in 0..DEPTH {
        let side_ptr = disk(u32::try_from(level).expect("bounded level") + 1_000);
        let side_path = ok(registry.reserve_path(continuation_path, b"y"));
        ok(registry.register_path(
            side_path,
            side_ptr.clone(),
            1,
            level + 1,
            NodeType::Node4,
            true,
        ));
        side_ptrs.push(side_ptr);
        continuation_path = ok(registry.reserve_path(continuation_path, b"x"));
    }
    ok(registry.register_path(
        continuation_path,
        terminal_ptr.clone(),
        1,
        DEPTH,
        NodeType::Node4,
        true,
    ));
    ok(registry.try_finalize_for_publication());
    let batch = registry.into_batch(CompactEvictionPolicy::DescendantFirst);
    assert_eq!(batch.candidates.len(), DEPTH + 1);

    let terminal = stamped_leaf(&terminal_ptr);
    let mut subtree = terminal;
    for side_ptr in side_ptrs.iter().rev() {
        subtree = Arc::new(
            Node::new()
                .with_child(b'x', Child::InMem(subtree))
                .with_child(b'y', Child::InMem(stamped_leaf(side_ptr))),
        );
    }

    let plan = build_batch_plan::<ByteKey>(&batch).expect("branching plan");
    assert!(build_chain_plan::<ByteKey>(&batch).is_none());
    assert_eq!(plan.len(), DEPTH * 2 + 1);
    let (rebuilt, successful) =
        build_batch_replacement(&subtree, &plan, &batch).expect("branching rebuild");
    assert_eq!(successful.len(), DEPTH + 1);

    let mut current = Arc::clone(&rebuilt);
    for (level, side_ptr) in side_ptrs.iter().enumerate() {
        match current.find_child(b'y').expect("side slot") {
            Child::OnDisk(actual) => assert_eq!(actual.to_raw(), side_ptr.to_raw()),
            Child::InMem(_) => panic!("side endpoint remained resident"),
        }
        let next = match current.find_child(b'x').expect("continuation slot") {
            Child::InMem(child) if level + 1 < DEPTH => Some(Arc::clone(child)),
            Child::OnDisk(actual) if level + 1 == DEPTH => {
                assert_eq!(actual.to_raw(), terminal_ptr.to_raw());
                None
            }
            Child::InMem(_) => panic!("terminal endpoint remained resident"),
            Child::OnDisk(_) => panic!("continuation ancestor was evicted"),
        };
        if let Some(next) = next {
            current = next;
        }
    }
    drop(current);
    release_tree(rebuilt);
    release_tree(subtree);
}

#[test]
fn chain_plan_and_rebuild_are_stack_safe_at_one_hundred_thousand_depth() {
    const DEPTH: usize = 100_000;
    let ptr = disk(110);
    let mut registry = DiskLocationRegistry::new();
    let mut path_id = RegistryPathId::root();
    for _ in 0..DEPTH {
        path_id = ok(registry.reserve_path(path_id, b"x"));
    }
    ok(registry.register_path(path_id, ptr.clone(), 1, DEPTH, NodeType::Node4, true));
    ok(registry.try_finalize_for_publication());
    let batch = registry.into_batch(CompactEvictionPolicy::DescendantFirst);
    assert_eq!(batch.candidates.len(), 1);

    let victim = stamped_leaf(&ptr);
    let mut subtree = victim;
    for _ in 1..DEPTH {
        subtree = Arc::new(Node::new().with_child(b'x', Child::InMem(subtree)));
    }
    let root = Arc::new(Node::new().with_child(b'x', Child::InMem(subtree)));

    let plan = build_chain_plan::<ByteKey>(&batch).expect("deep chain plan");
    assert_eq!(plan.len(), DEPTH);
    let (rebuilt, successful) =
        build_chain_replacement(&root, &plan, &batch).expect("deep chain rebuild");
    assert_eq!(successful.len(), 1);

    let mut current = Arc::clone(&rebuilt);
    for depth in 0..DEPTH {
        let next = match current.find_child(b'x').expect("deep child slot") {
            Child::InMem(child) if depth + 1 < DEPTH => Some(Arc::clone(child)),
            Child::OnDisk(actual) if depth + 1 == DEPTH => {
                assert_eq!(actual.to_raw(), ptr.to_raw());
                None
            }
            Child::InMem(_) => panic!("deep endpoint remained resident"),
            Child::OnDisk(_) => panic!("deep ancestor was evicted"),
        };
        if let Some(next) = next {
            current = next;
        }
    }
    drop(current);
    release_tree(rebuilt);
    release_tree(root);
}

#[test]
fn resident_chain_stale_fallback_is_stack_safe_at_one_hundred_thousand_depth() {
    const DEPTH: usize = 100_000;
    const ANCHOR_STRIDE: usize = 25_000;

    let pointers = [disk(111), disk(112), disk(113), disk(114)];
    let mut registry = DiskLocationRegistry::new();
    let mut path_id = RegistryPathId::root();
    for depth in 1..=DEPTH {
        path_id = ok(registry.reserve_path(path_id, b"x"));
        if depth % ANCHOR_STRIDE == 0 {
            let pointer = pointers[depth / ANCHOR_STRIDE - 1].clone();
            ok(registry.register_path(path_id, pointer, 1, depth, NodeType::Node4, true));
        }
    }
    ok(registry.try_finalize_for_publication());
    let mut batch = registry.into_batch(CompactEvictionPolicy::DescendantFirst);
    assert_eq!(batch.candidates.len(), pointers.len());
    batch.policy = CompactEvictionPolicy::ResidentBudgetAncestorClosure;

    let mut subtree = stamped_leaf(pointers.last().expect("terminal pointer"));
    for _ in 1..DEPTH {
        subtree = Arc::new(Node::new().with_child(b'x', Child::InMem(subtree)));
    }
    let root = Arc::new(Node::new().with_child(b'x', Child::InMem(subtree)));

    let plan = build_chain_plan::<ByteKey>(&batch).expect("deep resident chain plan");
    assert_eq!(plan.len(), DEPTH);
    let mut successful = SuccessfulCandidateIndices::new();
    assert!(successful.try_reserve_exact(batch.candidates.len()).is_ok());
    let rebuilt = build_chain_ancestor_replacement_into(&root, &plan, &batch, &mut successful)
        .expect("deep resident stale fallback rebuild");
    assert_eq!(successful.len(), 1);
    assert_eq!(
        batch.candidates[successful.get(0).expect("index")].disk_ptr.to_raw(),
        pointers.last().expect("terminal pointer").to_raw()
    );

    let mut current = Arc::clone(&rebuilt);
    for depth in 0..DEPTH {
        let next = match current.find_child(b'x').expect("deep resident child slot") {
            Child::InMem(child) if depth + 1 < DEPTH => Some(Arc::clone(child)),
            Child::OnDisk(actual) if depth + 1 == DEPTH => {
                assert_eq!(actual.to_raw(), pointers.last().unwrap().to_raw());
                None
            }
            Child::InMem(_) => panic!("deep resident endpoint remained resident"),
            Child::OnDisk(_) => panic!("stale resident ancestor was evicted"),
        };
        if let Some(next) = next {
            current = next;
        }
    }
    drop(current);
    release_tree(rebuilt);
    release_tree(root);
}

#[test]
fn a_batch_that_names_the_root_or_one_path_twice_is_rejected() {
    let mut batch = selected_batch(&[(b"a", disk(1)), (b"b", disk(2))]);
    batch.candidates[1].path_id = RegistryPathId::root();
    assert!(build_batch_plan::<ByteKey>(&batch).is_none());

    let mut twice = selected_batch(&[(b"a", disk(1)), (b"b", disk(2))]);
    twice.candidates[1].path_id = twice.candidates[0].path_id;
    assert!(build_batch_plan::<ByteKey>(&twice).is_none());
    assert!(build_chain_plan::<ByteKey>(&twice).is_none());
}

#[test]
fn an_index_list_keeps_its_order_and_can_be_emptied() {
    let mut list = SuccessfulCandidateIndices::new();
    assert!(list.is_empty());
    list.push(7);
    list.push(3);
    assert_eq!(list.len(), 2);
    assert_eq!(list.get(0), Some(7));
    assert_eq!(list.get(1), Some(3));
    assert_eq!(list.get(2), None);
    list.clear();
    assert!(list.is_empty());
    assert!(list.try_reserve_exact(usize::MAX).is_err());
}
