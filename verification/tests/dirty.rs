use persistent_artrie::child_node::{ChildNode, NodeHeader, StringBucket, TrieRoot};
use persistent_artrie::dirty_tracker::{BatchDirtyTracker, DirtyTracker};
use persistent_artrie::dirty_tracking::DirtyTracking;
use persistent_artrie::path_map::PathMap;
use persistent_artrie::swizzled_ptr::{NodeType, SwizzledPtr};

fn fresh() -> DirtyTracking {
    DirtyTracking::new(TrieRoot::Bucket(StringBucket::new()))
}

#[test]
fn test_dirty_tracker_creation() {
    let tracker = DirtyTracker::arena_level();
    assert_eq!(tracker.dirty_arena_count(), 0);
    assert_eq!(tracker.epoch(), 0);
}

#[test]
fn test_mark_arena_dirty() {
    let mut tracker = DirtyTracker::arena_level();

    tracker.mark_arena_dirty(1);
    tracker.mark_arena_dirty(2);
    tracker.mark_arena_dirty(1);

    assert_eq!(tracker.dirty_arena_count(), 2);
    assert!(tracker.is_arena_dirty(1));
    assert!(tracker.is_arena_dirty(2));
    assert!(!tracker.is_arena_dirty(3));
}

#[test]
fn test_mark_slot_dirty() {
    let mut tracker = DirtyTracker::slot_level();

    tracker.mark_slot_dirty(1, 100);
    tracker.mark_slot_dirty(1, 200);
    tracker.mark_slot_dirty(2, 50);

    assert_eq!(tracker.dirty_arena_count(), 2);
    assert_eq!(tracker.dirty_slot_count(), 3);

    assert!(tracker.is_slot_dirty(1, 100));
    assert!(tracker.is_slot_dirty(1, 200));
    assert!(tracker.is_slot_dirty(2, 50));
    assert!(!tracker.is_slot_dirty(1, 300));
}

#[test]
fn test_checkpoint_complete() {
    let mut tracker = DirtyTracker::arena_level();

    tracker.mark_arena_dirty(1);
    tracker.mark_arena_dirty(2);
    assert_eq!(tracker.dirty_arena_count(), 2);
    assert_eq!(tracker.epoch(), 0);

    tracker.checkpoint_complete();

    assert_eq!(tracker.dirty_arena_count(), 0);
    assert_eq!(tracker.epoch(), 1);
}

#[test]
fn test_io_savings_estimate() {
    let mut tracker = DirtyTracker::arena_level();

    for i in 0..5 {
        tracker.mark_arena_dirty(i);
    }

    let stats = tracker.stats();
    let (full, incremental) = stats.checkpoint_bytes(100, 256 * 1024);
    let savings = 100.0 * (1.0 - incremental as f64 / full as f64);

    assert_eq!(full, 100 * 256 * 1024);
    assert_eq!(incremental, 5 * 256 * 1024);
    assert!((savings - 95.0).abs() < 0.01);
}

#[test]
fn test_dirty_tracker_merge() {
    let mut tracker1 = DirtyTracker::slot_level();
    let mut tracker2 = DirtyTracker::slot_level();

    tracker1.mark_slot_dirty(1, 100);
    tracker1.mark_slot_dirty(2, 200);

    tracker2.mark_slot_dirty(2, 300);
    tracker2.mark_slot_dirty(3, 400);

    tracker1.merge(&tracker2);

    assert_eq!(tracker1.dirty_arena_count(), 3);
    assert_eq!(tracker1.dirty_slot_count(), 4);
}

#[test]
fn test_batch_dirty_tracker() {
    let mut batch = BatchDirtyTracker::new(false, 10);

    for i in 0..15 {
        batch.mark_arena_dirty(i);
    }

    assert!(batch.should_merge());
    assert_eq!(batch.dirty_count(), 15);

    let taken = batch.take();
    assert_eq!(taken.dirty_arena_count(), 15);
    assert_eq!(batch.dirty_count(), 0);
}

#[test]
fn test_clear_specific_arenas() {
    let mut tracker = DirtyTracker::arena_level();

    tracker.mark_arena_dirty(1);
    tracker.mark_arena_dirty(2);
    tracker.mark_arena_dirty(3);

    tracker.clear_arenas(&[1, 3]);

    assert!(!tracker.is_arena_dirty(1));
    assert!(tracker.is_arena_dirty(2));
    assert!(!tracker.is_arena_dirty(3));
}

#[test]
fn a_merge_holds_the_slots_of_both() {
    let mut a = DirtyTracker::slot_level();
    let mut b = DirtyTracker::slot_level();
    a.mark_slot_dirty(1, 10);
    b.mark_slot_dirty(1, 11);
    b.mark_slot_dirty(4, 12);
    a.merge(&b);
    assert!(a.is_slot_dirty(1, 10));
    assert!(a.is_slot_dirty(1, 11));
    assert!(a.is_slot_dirty(4, 12));
    assert!(!a.is_slot_dirty(4, 10));
    let mut slots = a.dirty_slot_ids(1).expect("slots");
    slots.sort();
    assert_eq!(slots, vec![10, 11]);
    let mut arenas = a.dirty_arena_ids();
    arenas.sort();
    assert_eq!(arenas, vec![1, 4]);
}

#[test]
fn without_slots_an_arena_is_dirty_as_a_whole() {
    let mut tracker = DirtyTracker::new(false);
    tracker.mark_slot_dirty(3, 9);
    assert!(tracker.is_slot_dirty(3, 9));
    assert!(tracker.is_slot_dirty(3, 10));
    assert!(!tracker.is_slot_dirty(4, 9));
    assert_eq!(tracker.dirty_slot_count(), 0);
    assert!(tracker.dirty_slot_ids(3).is_none());
    let mut batch = BatchDirtyTracker::new(true, 2);
    batch.mark_slot_dirty(1, 1);
    assert!(!batch.should_merge());
    batch.mark_slot_dirty(2, 1);
    assert!(batch.should_merge());
    assert!(batch.take().is_slot_dirty(2, 1));
}

#[test]
fn test_dirty_path_recording() {
    let mut dict = fresh();
    assert!(dict.dirty_prefixes.is_empty());

    dict.record_dirty_path(b"apple");

    assert!(dict.dirty_prefixes.contains(&vec![]));
    assert!(dict.dirty_prefixes.contains(&vec![b'a']));
    assert!(dict.dirty_prefixes.contains(&vec![b'a', b'p']));
    assert!(dict.dirty_prefixes.contains(&vec![b'a', b'p', b'p']));
    assert!(dict.dirty_prefixes.contains(&vec![b'a', b'p', b'p', b'l']));
    assert!(dict
        .dirty_prefixes
        .contains(&vec![b'a', b'p', b'p', b'l', b'e']));
}

#[test]
fn test_dirty_path_recording_multiple_terms() {
    let mut dict = fresh();

    dict.record_dirty_path(b"apple");
    dict.record_dirty_path(b"apricot");

    assert!(dict.dirty_prefixes.contains(&vec![b'a', b'p']));
    assert!(dict.dirty_prefixes.contains(&vec![b'a', b'p', b'p']));
    assert!(dict.dirty_prefixes.contains(&vec![b'a', b'p', b'r']));
}

#[test]
fn test_dirty_path_recording_on_remove() {
    let mut dict = fresh();

    dict.record_dirty_path(b"apple");
    dict.dirty_prefixes.clear();

    dict.record_dirty_path(b"apple");
    assert!(dict
        .dirty_prefixes
        .contains(&vec![b'a', b'p', b'p', b'l', b'e']));
}

#[test]
fn test_dirty_tracking_state_clear() {
    let mut dict = fresh();

    dict.record_dirty_path(b"apple");
    dict.record_dirty_path(b"banana");

    assert!(!dict.dirty_prefixes.is_empty());

    let dummy_ptr = SwizzledPtr::null();
    dict.persisted_disk_locations.insert(&[b'a'], dummy_ptr);

    dict.clear_dirty_tracking_state();

    assert!(dict.dirty_prefixes.is_empty());
    assert!(!dict.persisted_disk_locations.is_empty());
    assert!(dict.persisted_disk_locations.contains(&[b'a']));
}

#[test]
fn test_dirty_path_invalidates_cache() {
    let mut dict = fresh();

    dict.persisted_disk_locations
        .insert(&[b'a'], SwizzledPtr::null());
    dict.persisted_disk_locations
        .insert(&[b'a', b'p'], SwizzledPtr::null());
    dict.persisted_disk_locations
        .insert(&[b'a', b'p', b'p'], SwizzledPtr::null());
    dict.persisted_disk_locations
        .insert(&[b'b'], SwizzledPtr::null());

    dict.record_dirty_path(b"ap");

    let cache = &dict.persisted_disk_locations;
    assert!(!cache.contains(&[]));
    assert!(!cache.contains(&[b'a']));
    assert!(!cache.contains(&[b'a', b'p']));

    assert!(cache.contains(&[b'a', b'p', b'p']));
    assert!(cache.contains(&[b'b']));
}

#[test]
fn test_dirty_root_flag_propagation() {
    let mut dict = DirtyTracking::new(TrieRoot::ArtNode {
        node: NodeHeader::new(),
        children: Vec::new(),
        is_final: false,
        value: None,
    });

    for i in 0..100 {
        dict.record_dirty_path(format!("term{:03}", i).as_bytes());
        dict.propagate_dirty_to_root();
    }

    match &dict.root {
        TrieRoot::ArtNode { node, .. } => assert!(
            node.has_dirty_descendants,
            "Root should have HAS_DIRTY_DESCENDANTS flag after inserts"
        ),
        _ => panic!("the root is an inner node"),
    }

    dict.clear_dirty_tracking_state();

    match &dict.root {
        TrieRoot::ArtNode { node, .. } => {
            assert!(
                !node.has_dirty_descendants,
                "Root should not have HAS_DIRTY_DESCENDANTS flag after clear"
            );
            assert!(
                !node.is_dirty,
                "Root should not have IS_DIRTY flag after clear"
            );
        }
        _ => panic!("the root is an inner node"),
    }
}

#[test]
fn test_path_needs_persistence() {
    let mut dict = fresh();

    dict.record_dirty_path(b"apple");

    assert!(dict.path_needs_persistence(b""));
    assert!(dict.path_needs_persistence(b"a"));
    assert!(dict.path_needs_persistence(b"ap"));
    assert!(dict.path_needs_persistence(b"apple"));

    assert!(!dict.path_needs_persistence(b"b"));
    assert!(!dict.path_needs_persistence(b"banana"));
    assert!(!dict.path_needs_persistence(b"ax"));
}

#[test]
fn test_disk_location_caching() {
    let mut dict = fresh();

    let test_ptr = SwizzledPtr::on_disk(1, 100, NodeType::Node4);
    dict.cache_disk_location(b"test", test_ptr.clone());

    assert!(dict.get_cached_disk_location(b"test").is_some());

    dict.record_dirty_path(b"test");
    assert!(dict.get_cached_disk_location(b"test").is_none());
}

#[test]
fn clearing_reaches_every_level() {
    let dirty = NodeHeader {
        is_final: true,
        is_dirty: true,
        has_dirty_descendants: true,
    };
    let leaf = ChildNode::ArtNode {
        node: dirty,
        is_final: true,
        value: Some(vec![1]),
        children: Vec::new(),
    };
    let inner = ChildNode::ArtNode {
        node: dirty,
        is_final: false,
        value: None,
        children: vec![(7, leaf), (8, ChildNode::DiskRef { ptr: SwizzledPtr::null() })],
    };
    let mut dict = DirtyTracking::new(TrieRoot::ArtNode {
        node: dirty,
        children: vec![(5, inner)],
        is_final: false,
        value: None,
    });
    dict.clear_dirty_tracking_state();
    let TrieRoot::ArtNode { children, .. } = &dict.root else {
        panic!("the root is an inner node");
    };
    let ChildNode::ArtNode { node, children, .. } = &children[0].1 else {
        panic!("the child is an inner node");
    };
    assert!(!node.is_dirty && !node.has_dirty_descendants && node.is_final);
    let ChildNode::ArtNode { node, value, .. } = &children[0].1 else {
        panic!("the leaf is an inner node");
    };
    assert!(!node.is_dirty && !node.has_dirty_descendants);
    assert_eq!(value, &Some(vec![1]));
}

#[test]
fn a_durable_child_is_remembered_before_it_is_loaded() {
    let mut dict = fresh();
    let ptr = SwizzledPtr::on_disk(2, 9, NodeType::Node16);
    dict.cache_before_resolution(&ChildNode::DiskRef { ptr }, b"xy");
    assert_eq!(dict.get_cached_disk_location(b"xy"), Some(ptr));
    dict.cache_before_resolution(&ChildNode::Bucket(StringBucket::new()), b"z");
    assert!(dict.get_cached_disk_location(b"z").is_none());
}

#[test]
fn a_loaded_child_is_remembered_where_it_lay() {
    let fetch = |block: u32| if block == 3 { Some(vec![0, 0, 9]) } else { None };
    let decode = |bytes: &[u8]| {
        if bytes == [9] {
            Some(NodeHeader::new())
        } else {
            None
        }
    };
    let mut dict = fresh();
    let ptr = SwizzledPtr::on_disk(3, 2, NodeType::Node4);
    let mut child = ChildNode::DiskRef { ptr };
    assert!(dict.resolve_and_cache_disk_location(&mut child, b"k", Some(fetch), decode));
    assert!(matches!(child, ChildNode::ArtNode { .. }));
    assert_eq!(dict.get_cached_disk_location(b"k"), Some(ptr));

    let lost = SwizzledPtr::on_disk(4, 2, NodeType::Node4);
    let mut child = ChildNode::DiskRef { ptr: lost };
    assert!(!dict.resolve_and_cache_disk_location(&mut child, b"l", Some(fetch), decode));
    assert!(matches!(child, ChildNode::DiskRef { .. }));
    assert_eq!(dict.get_cached_disk_location(b"l"), Some(lost));

    let mut child = ChildNode::Bucket(StringBucket::new());
    assert!(dict.resolve_and_cache_disk_location(&mut child, b"m", Some(fetch), decode));
    assert!(dict.get_cached_disk_location(b"m").is_none());
}

#[test]
fn a_batch_that_is_handed_on_counts_as_its_marks() {
    let marks = [(1, Some(4)), (2, None), (1, Some(5)), (3, Some(4)), (1, Some(4))];
    let mut direct = DirtyTracker::slot_level();
    let mut target = DirtyTracker::slot_level();
    let mut batch = BatchDirtyTracker::new(true, 10);
    direct.mark_slot_dirty(3, 9);
    target.mark_slot_dirty(3, 9);
    for (arena, slot) in marks {
        match slot {
            Some(slot) => {
                direct.mark_slot_dirty(arena, slot);
                batch.mark_slot_dirty(arena, slot);
            }
            None => {
                direct.mark_arena_dirty(arena);
                batch.mark_arena_dirty(arena);
            }
        }
    }
    target.merge(&batch.take());
    for arena in 0..5 {
        assert_eq!(target.is_arena_dirty(arena), direct.is_arena_dirty(arena));
        for slot in 0..10 {
            assert_eq!(
                target.is_slot_dirty(arena, slot),
                direct.is_slot_dirty(arena, slot)
            );
        }
    }
    assert_eq!(target.dirty_slot_count(), direct.dirty_slot_count());
    assert_eq!(target.stats().total_marks, direct.stats().total_marks);
    assert_eq!(target.dirty_slot_ids(2), None);
    assert!(!target.dirty_slot_ids(1).expect("arena 1 has slots").is_empty());
}

#[test]
fn an_epoch_ends_with_each_checkpoint() {
    let mut tracker = DirtyTracker::slot_level();
    for round in 0..4 {
        assert_eq!(tracker.epoch(), round);
        assert_eq!(tracker.stats().checkpoint_count, round);
        tracker.mark_slot_dirty(1, 2);
        tracker.checkpoint_complete();
    }
}

#[test]
fn a_path_map_keeps_the_last_value() {
    let mut map: PathMap<u64> = PathMap::new();
    map.insert(b"b", 1);
    map.insert(b"a", 2);
    map.insert(b"ab", 3);
    map.insert(b"b", 4);
    assert_eq!(map.get(b"a"), Some(2));
    assert_eq!(map.get(b"ab"), Some(3));
    assert_eq!(map.get(b"b"), Some(4));
    assert_eq!(map.get(b""), None);
    map.remove(b"a");
    assert!(!map.contains(b"a"));
    assert!(map.contains(b"ab"));
    map.clear();
    assert!(map.is_empty());
}
