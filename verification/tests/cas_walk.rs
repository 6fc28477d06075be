use std::cell::Cell;
use std::sync::Arc;

use persistent_artrie::error::{PersistentARTrieError, TrieResult};
use persistent_artrie::key_encoding::ByteKey;
use persistent_artrie::overlay::cas_walk::{
    build_value_spine, build_value_spine_on, create_spine, find_in_lockfree_trie,
    find_leaf_iterative, resolve_or_fault, ChildResolution, FaultMode,
};
use persistent_artrie::overlay::node::{Child, OverlayNode};
use persistent_artrie::overlay::{
    try_push_overlay_path_spine, OverlayNodeHandle, OverlayPathFrame, OverlayPathSpine,
    INLINE_OVERLAY_DEPTH,
};
use persistent_artrie::swizzled_ptr::{NodeType, SwizzledPtr};

type Node = OverlayNode<ByteKey, ()>;

#[test]
fn resident_resolution_borrows_without_arc_traffic() {
    let child = Arc::new(Node::new());
    let root = Arc::new(Node::new().with_child(b'x', Child::InMem(Arc::clone(&child))));
    let strong_before = Arc::strong_count(&child);
    let current = OverlayNodeHandle::Borrowed(&root);

    let resolution = resolve_or_fault(&current, b'x', FaultMode::Fault, &|_: &SwizzledPtr| {
        unreachable!("resident resolution must not invoke the faulter")
    });

    match resolution {
        ChildResolution::InMem(OverlayNodeHandle::Borrowed(resolved)) => {
            assert!(Arc::ptr_eq(resolved, &child));
        }
        _ => panic!("resident child must remain borrowed"),
    }
    assert_eq!(Arc::strong_count(&child), strong_before);
}

#[test]
fn descendants_of_fault_owned_nodes_remain_owned() {
    let child = Arc::new(Node::new());
    let parent = Arc::new(Node::new().with_child(b'x', Child::InMem(Arc::clone(&child))));
    let strong_before = Arc::strong_count(&child);
    let current = OverlayNodeHandle::Owned(parent);

    let resolution = resolve_or_fault(&current, b'x', FaultMode::Fault, &|_: &SwizzledPtr| {
        unreachable!("resident resolution must not invoke the faulter")
    });

    match resolution {
        ChildResolution::InMem(OverlayNodeHandle::Owned(resolved)) => {
            assert!(Arc::ptr_eq(&resolved, &child));
            assert_eq!(Arc::strong_count(&child), strong_before + 1);
        }
        _ => panic!("a child below a fault-owned node must be owned"),
    }
    assert_eq!(Arc::strong_count(&child), strong_before);
}

#[test]
fn successful_fault_is_distinguished_from_a_resident_child() {
    let root = Arc::new(Node::new().with_child(
        b'x',
        Child::OnDisk(SwizzledPtr::on_disk(7, 11, NodeType::Node4)),
    ));
    let loaded = Arc::new(Node::new().as_final());
    let current = OverlayNodeHandle::Borrowed(&root);

    let resolution = resolve_or_fault(
        &current,
        b'x',
        FaultMode::Fault,
        &|observed: &SwizzledPtr| {
            let location = observed.disk_location().expect("on-disk location");
            assert_eq!(location.block_id, 7);
            assert_eq!(location.offset, 11);
            assert_eq!(location.node_type, NodeType::Node4);
            Ok(Arc::clone(&loaded))
        },
    );

    match resolution {
        ChildResolution::Faulted(resolved) => assert!(Arc::ptr_eq(&resolved, &loaded)),
        _ => panic!("a successful on-disk load must remain a Faulted outcome"),
    }
}

#[test]
fn failed_fault_preserves_its_typed_error() {
    let root = Arc::new(Node::new().with_child(
        b'x',
        Child::OnDisk(SwizzledPtr::on_disk(7, 11, NodeType::Node4)),
    ));
    let current = OverlayNodeHandle::Borrowed(&root);

    let resolution = resolve_or_fault(&current, b'x', FaultMode::Fault, &|_: &SwizzledPtr| {
        Err(PersistentARTrieError::BufferPoolExhausted {
            pinned_pages: 4,
            total_pages: 4,
        })
    });

    assert!(matches!(
        resolution,
        ChildResolution::FaultFailed(error)
            if matches!(
                *error,
                PersistentARTrieError::BufferPoolExhausted {
                    pinned_pages: 4,
                    total_pages: 4
                }
            )
    ));
}

#[test]
fn null_and_absent_edges_remain_distinct() {
    let root = Arc::new(Node::new().with_child(b'x', Child::OnDisk(SwizzledPtr::null())));
    let current = OverlayNodeHandle::Borrowed(&root);

    let null = resolve_or_fault(&current, b'x', FaultMode::Fault, &|_: &SwizzledPtr| {
        unreachable!("a null edge must not invoke the faulter")
    });
    let absent = resolve_or_fault(&current, b'y', FaultMode::Fault, &|_: &SwizzledPtr| {
        unreachable!("an absent edge must not invoke the faulter")
    });

    assert!(matches!(null, ChildResolution::Null));
    assert!(matches!(absent, ChildResolution::Absent));
}

#[test]
fn no_fault_mode_classifies_an_on_disk_edge_without_loading_it() {
    let root = Arc::new(Node::new().with_child(
        b'x',
        Child::OnDisk(SwizzledPtr::on_disk(7, 11, NodeType::Node4)),
    ));
    let current = OverlayNodeHandle::Borrowed(&root);

    let resolution = resolve_or_fault(&current, b'x', FaultMode::NoFaultIn, &|_: &SwizzledPtr| {
        unreachable!("NoFaultIn must never invoke the loader")
    });

    assert!(matches!(resolution, ChildResolution::Null));
}

#[test]
fn invalid_start_depth_is_a_typed_error() {
    let root = Arc::new(Node::new());
    let result = build_value_spine(
        &root,
        b"x",
        2,
        (),
        FaultMode::Fault,
        |_: &SwizzledPtr| -> TrieResult<Arc<Node>> {
            unreachable!("invalid depth must fail before fault-in")
        },
    );

    assert!(matches!(
        &result,
        Err(PersistentARTrieError::InternalError { .. })
    ));
    match result {
        Err(PersistentARTrieError::InternalError { message }) => {
            assert_eq!(message, "valued overlay path depth 2 exceeds key length 1");
        }
        _ => panic!("an invalid depth is an internal error"),
    }
}

#[test]
fn fault_in_error_is_not_reclassified_as_contention() {
    let root = Arc::new(Node::new().with_child(
        b'x',
        Child::OnDisk(SwizzledPtr::on_disk(1, 1, NodeType::Node4)),
    ));
    let result = build_value_spine(&root, b"x", 0, (), FaultMode::Fault, |_: &SwizzledPtr| {
        Err(PersistentARTrieError::BufferPoolExhausted {
            pinned_pages: 8,
            total_pages: 8,
        })
    });

    assert!(matches!(
        result,
        Err(PersistentARTrieError::BufferPoolExhausted {
            pinned_pages: 8,
            total_pages: 8
        })
    ));
}

#[test]
fn null_child_is_reported_as_corruption() {
    let root = Arc::new(Node::new().with_child(b'x', Child::OnDisk(SwizzledPtr::null())));
    let result = build_value_spine(
        &root,
        b"x",
        0,
        (),
        FaultMode::Fault,
        |_: &SwizzledPtr| -> TrieResult<Arc<Node>> {
            unreachable!("null child must fail before fault-in")
        },
    );

    assert!(matches!(
        result,
        Err(PersistentARTrieError::CorruptedFile { .. })
    ));
}

#[test]
fn valued_path_spill_failure_is_typed_and_does_not_mutate_the_root() {
    let key = vec![b'x'; INLINE_OVERLAY_DEPTH + 1];
    let mut root = Arc::new(Node::new().as_final());
    for &unit in key.iter().rev() {
        root = Arc::new(Node::new().with_child(unit, Child::InMem(root)));
    }
    let root_before = Arc::clone(&root);

    let result = build_value_spine_on(
        OverlayPathSpine::without_spill(),
        &root,
        &key,
        0,
        (),
        FaultMode::Fault,
        |_: &SwizzledPtr| -> TrieResult<Arc<Node>> {
            unreachable!("resident path must not fault")
        },
    );

    assert!(matches!(
        result,
        Err(PersistentARTrieError::AllocationFailed { .. })
    ));
    assert!(Arc::ptr_eq(&root, &root_before));
}

#[test]
fn overlay_spine_stays_inline_then_reserves_its_complete_bound_once() {
    const MAXIMUM_FRAMES: usize = 64;
    let node = Arc::new(Node::new());
    let strong_before = Arc::strong_count(&node);
    let mut spine = OverlayPathSpine::<ByteKey, ()>::new();

    for unit in 0..INLINE_OVERLAY_DEPTH {
        assert!(try_push_overlay_path_spine(
            &mut spine,
            OverlayPathFrame {
                node: OverlayNodeHandle::Borrowed(&node),
                unit: unit as u8,
            },
            MAXIMUM_FRAMES,
        )
        .is_ok());
    }
    assert!(!spine.spilled());
    assert_eq!(Arc::strong_count(&node), strong_before);

    assert!(try_push_overlay_path_spine(
        &mut spine,
        OverlayPathFrame {
            node: OverlayNodeHandle::Borrowed(&node),
            unit: INLINE_OVERLAY_DEPTH as u8,
        },
        MAXIMUM_FRAMES,
    )
    .is_ok());
    assert!(spine.spilled());
    assert!(spine.capacity() >= MAXIMUM_FRAMES);
    let spilled_capacity = spine.capacity();

    for unit in INLINE_OVERLAY_DEPTH + 1..MAXIMUM_FRAMES {
        assert!(try_push_overlay_path_spine(
            &mut spine,
            OverlayPathFrame {
                node: OverlayNodeHandle::Borrowed(&node),
                unit: unit as u8,
            },
            MAXIMUM_FRAMES,
        )
        .is_ok());
    }
    assert_eq!(spine.len(), MAXIMUM_FRAMES);
    assert_eq!(spine.capacity(), spilled_capacity);
    assert_eq!(Arc::strong_count(&node), strong_before);
}

fn no_loads(_: &SwizzledPtr) -> TrieResult<Arc<OverlayNode<ByteKey, u64>>> {
    unreachable!("nothing is durable here")
}

#[test]
fn a_value_reads_back_and_other_terms_stay() {
    let empty = Arc::new(OverlayNode::<ByteKey, u64>::new());
    let one = build_value_spine(&empty, b"ant", 0, 3, FaultMode::Fault, no_loads)
        .unwrap_or_else(|_| panic!("first value"));
    let two = build_value_spine(&one, b"an", 0, 5, FaultMode::Fault, no_loads)
        .unwrap_or_else(|_| panic!("second value"));
    let three = build_value_spine(&two, b"ant", 0, 8, FaultMode::Fault, no_loads)
        .unwrap_or_else(|_| panic!("third value"));

    let ant = find_leaf_iterative(&three, b"ant", 0).expect("ant");
    assert_eq!(ant.get_value(), Some(8));
    let an = find_leaf_iterative(&three, b"an", 0).expect("an");
    assert_eq!(an.get_value(), Some(5));
    assert!(!find_in_lockfree_trie(&three, b"a", 0));
    assert!(find_in_lockfree_trie(&three, b"ant", 0));
    assert!(find_leaf_iterative(&one, b"an", 0).is_none());
    assert_eq!(
        find_leaf_iterative(&one, b"ant", 0).expect("old root").get_value(),
        Some(3)
    );
}

#[test]
fn a_durable_child_on_the_way_is_loaded_once() {
    let ptr = SwizzledPtr::on_disk(3, 5, NodeType::Node4);
    let root = Arc::new(OverlayNode::<ByteKey, u64>::new().with_child(b'a', Child::OnDisk(ptr)));
    let loads = Cell::new(0);
    let below = Arc::new(
        OverlayNode::<ByteKey, u64>::new().with_child(
            b'b',
            Child::InMem(Arc::new(OverlayNode::new().as_final().with_value(1))),
        ),
    );
    let result = build_value_spine(&root, b"ac", 0, 9, FaultMode::Fault, |_: &SwizzledPtr| {
        loads.set(loads.get() + 1);
        Ok(Arc::clone(&below))
    })
    .unwrap_or_else(|_| panic!("value below a durable child"));
    assert_eq!(loads.get(), 1);
    assert_eq!(
        find_leaf_iterative(&result, b"ac", 0).expect("ac").get_value(),
        Some(9)
    );
    assert_eq!(
        find_leaf_iterative(&result, b"ab", 0).expect("ab").get_value(),
        Some(1)
    );
}

#[test]
fn a_new_spine_ends_in_its_leaf() {
    let (top, leaf) = create_spine::<ByteKey, u64, _>(b"xyz", || {
        Arc::new(OverlayNode::new().as_final().with_value(4))
    });
    let found = find_leaf_iterative(&top, b"xyz", 0).expect("leaf");
    assert!(Arc::ptr_eq(&found, &leaf));
    assert_eq!(top.num_children(), 1);
    assert_eq!(top.version(), 1);
}
