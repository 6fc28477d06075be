use std::collections::BTreeMap;
use std::sync::Arc;

use persistent_artrie::key_encoding::{ByteKey, CharKey, KeyEncoding, U64Key};
use persistent_artrie::overlay::dict_node::{OverlayDictionaryNode, SnapshotTraversalCursor};
use persistent_artrie::overlay::node::{release_tree, Child, OverlayNode};
use persistent_artrie::overlay::paths::{insert_path, visit_paths, PathCensus};
use persistent_artrie::swizzled_ptr::{NodeType, SwizzledPtr};

const DEEP_PATH: usize = 100_000;

fn insert<K: KeyEncoding>(
    root: &Arc<OverlayNode<K, u64>>,
    units: &[K::Unit],
    value: u64,
) -> Arc<OverlayNode<K, u64>> {
    if let Some((&head, tail)) = units.split_first() {
        let child = match root.find_child(head) {
            Some(Child::InMem(child)) => Arc::clone(child),
            _ => Arc::new(OverlayNode::new()),
        };
        let child = insert(&child, tail, value);
        Arc::new(root.with_child(head, Child::InMem(child)))
    } else {
        Arc::new(root.as_final().with_value(value))
    }
}

fn follow<K: KeyEncoding>(
    owner: &OverlayDictionaryNode<K, u64>,
    mut cursor: SnapshotTraversalCursor,
    units: &[K::Token],
) -> Option<SnapshotTraversalCursor> {
    for &unit in units {
        cursor = owner.snapshot_cursor_transition(cursor, unit)??;
    }
    Some(cursor)
}

fn assert_exact_cursor_surface<K: KeyEncoding>(
    root: Arc<OverlayNode<K, u64>>,
    expected: BTreeMap<Vec<K::Token>, u64>,
) where
    K::Token: Ord + std::fmt::Debug,
{
    let mut owner = OverlayDictionaryNode::<K, u64>::from_overlay_root(root, None);
    assert!(owner.snapshot_cursor_requires_full_projection());
    let root_cursor = owner.snapshot_root_cursor().expect("direct root cursor");
    assert!(!owner.snapshot_cursor_requires_full_projection());
    assert!(owner.contains_snapshot_cursor(root_cursor));
    assert!(owner.supports_snapshot_cursor_nodes());
    assert!(owner.supports_snapshot_cursor_key_units());
    assert!(owner.supports_snapshot_cursor_values());
    assert!(owner.supports_efficient_snapshot_cursor_edge_paging());

    let mut pending = vec![(Vec::new(), root_cursor)];
    while let Some((path, cursor)) = pending.pop() {
        let expected_value = expected.get(&path).copied();
        assert_eq!(owner.snapshot_cursor_key_units(cursor), Some(path.clone()));
        assert_eq!(
            owner.snapshot_cursor_is_final(cursor),
            Some(expected_value.is_some())
        );
        assert_eq!(owner.snapshot_cursor_value(cursor), Some(expected_value));

        let materialized = owner.snapshot_cursor_node(cursor).expect("cursor node");
        assert_eq!(materialized.is_final(), expected_value.is_some());
        assert_eq!(materialized.value(), expected_value);

        let (found, finality) = owner
            .filter_map_snapshot_cursor_edges_and_finality(cursor, |label| Some(label))
            .expect("edges");
        let mut edges = Vec::new();
        for (label, child, label_again) in found {
            assert_eq!(label, label_again);
            edges.push((label, child));
        }
        assert_eq!(finality, expected_value.is_some());
        assert!(edges.windows(2).all(|pair| pair[0].0 < pair[1].0));

        let mut paged = Vec::new();
        for start in 0..=edges.len() {
            let (page, is_final, total) = owner
                .visit_snapshot_cursor_edge_page(cursor, start, 1)
                .expect("page");
            assert_eq!((is_final, total), (expected_value.is_some(), edges.len()));
            if start < edges.len() {
                assert_eq!(page, vec![edges[start]]);
                paged.extend(page);
            } else {
                assert!(page.is_empty());
            }
        }
        assert_eq!(paged, edges);

        for &(label, child) in edges.iter().rev() {
            assert_eq!(
                owner.snapshot_cursor_transition(cursor, label),
                Some(Some(child))
            );
            let mut child_path = path.clone();
            child_path.push(label);
            pending.push((child_path, child));
        }
    }

    for (term, value) in expected {
        let cursor = follow(&owner, root_cursor, &term).expect("expected term cursor");
        assert_eq!(owner.snapshot_cursor_value(cursor), Some(Some(value)));
    }
}

#[test]
fn byte_char_u64_and_vocabulary_overlay_cursors_are_exact_and_ordered() {
    let mut byte_root = Arc::new(OverlayNode::<ByteKey, u64>::new());
    let byte_terms = [
        (b"z".as_slice(), 1),
        (b"ant".as_slice(), 2),
        (b"an".as_slice(), 3),
    ];
    for (term, value) in byte_terms {
        byte_root = insert(&byte_root, term, value);
    }
    assert_exact_cursor_surface::<ByteKey>(
        byte_root,
        BTreeMap::from([
            (b"an".to_vec(), 3),
            (b"ant".to_vec(), 2),
            (b"z".to_vec(), 1),
        ]),
    );

    let mut char_root = Arc::new(OverlayNode::<CharKey, u64>::new());
    let char_terms = [
        (vec!['雪' as u32], vec!['雪'], 5),
        (vec!['a' as u32, 'β' as u32], vec!['a', 'β'], 7),
        (vec!['a' as u32], vec!['a'], 11),
    ];
    let mut char_expected = BTreeMap::new();
    for (units, tokens, value) in char_terms {
        char_root = insert(&char_root, &units, value);
        char_expected.insert(tokens, value);
    }
    assert_exact_cursor_surface::<CharKey>(char_root, char_expected);

    let mut u64_root = Arc::new(OverlayNode::<U64Key, u64>::new());
    let u64_terms = [(vec![99], 13), (vec![1, 8], 17), (vec![1], 19)];
    let mut u64_expected = BTreeMap::new();
    for (term, value) in u64_terms {
        u64_root = insert(&u64_root, &term, value);
        u64_expected.insert(term, value);
    }
    assert_exact_cursor_surface::<U64Key>(u64_root, u64_expected);
}

#[test]
fn overlay_cursor_revisions_are_isolated_during_concurrent_capture_and_writes() {
    let empty = Arc::new(OverlayNode::<ByteKey, u64>::new());
    let old_root = insert(&empty, b"ant", 7);
    let mut owners = Vec::new();
    for _ in 0..8 {
        owners.push(OverlayDictionaryNode::<ByteKey, u64>::from_overlay_root(
            Arc::clone(&old_root),
            None,
        ));
    }

    let mut newest = old_root;
    for value in 0..128 {
        newest = insert(&newest, b"zoo", value);
        for owner in owners.iter_mut() {
            let root = owner.snapshot_root_cursor().expect("old root cursor");
            let ant = follow(owner, root, b"ant").expect("old term");
            assert_eq!(owner.snapshot_cursor_value(ant), Some(Some(7)));
            assert_eq!(owner.snapshot_cursor_transition(root, b'z'), Some(None));
        }
    }
    let mut fresh_owner = OverlayDictionaryNode::<ByteKey, u64>::from_overlay_root(newest, None);
    let fresh_root = fresh_owner
        .snapshot_root_cursor()
        .expect("fresh root cursor");
    let zoo = follow(&fresh_owner, fresh_root, b"zoo").expect("fresh term");
    assert_eq!(fresh_owner.snapshot_cursor_value(zoo), Some(Some(127)));
}

#[test]
fn immutable_path_copy_spills_to_the_heap_without_native_stack_growth() {
    let units = vec![0_u8; DEEP_PATH];
    let root = insert_path(Arc::new(OverlayNode::<ByteKey, ()>::new()), units.as_slice());

    let mut current = Arc::clone(&root);
    for _ in 0..DEEP_PATH {
        let next = match current.find_child(0) {
            Some(Child::InMem(child)) => Arc::clone(child),
            _ => panic!("the inserted spine is complete"),
        };
        current = next;
    }
    assert!(current.is_final());
    drop(current);
    release_tree(root);
}

#[test]
fn ordered_visit_spills_one_pending_sibling_per_level() {
    let shared_final = Arc::new(OverlayNode::<ByteKey, ()>::new().as_final());
    let mut root = shared_final.clone();
    for _ in 0..DEEP_PATH {
        root = Arc::new(
            OverlayNode::<ByteKey, ()>::new()
                .with_child(0, Child::InMem(root))
                .with_child(1, Child::InMem(shared_final.clone())),
        );
    }

    let mut census = PathCensus::<ByteKey, ()>::new();
    let mut path = Vec::new();
    visit_paths(&root, &mut path, &mut census);

    assert_eq!(census.deepest, DEEP_PATH);
    assert_eq!(census.finals, DEEP_PATH + 1);
    assert!(path.is_empty());
    release_tree(root);
}

#[test]
fn inserting_a_path_keeps_the_other_terms() {
    let mut root = Arc::new(OverlayNode::<ByteKey, ()>::new());
    for term in [b"car".as_slice(), b"cart".as_slice(), b"dog".as_slice()] {
        root = insert_path(root, term);
    }
    let mut census = PathCensus::<ByteKey, ()>::new();
    visit_paths(&root, &mut vec![9], &mut census);
    assert_eq!(census.finals, 3);
    assert_eq!(census.deepest, 5);
}

#[test]
fn a_handle_without_a_faulter_shows_resident_children_only() {
    let durable = Child::OnDisk(SwizzledPtr::on_disk(1, 1, NodeType::Node4));
    let root = insert(&Arc::new(OverlayNode::<ByteKey, u64>::new()), b"a", 1);
    let root = Arc::new(root.with_child(b'b', durable));
    let handle = OverlayDictionaryNode::<ByteKey, u64>::from_overlay_root(root, None);
    assert_eq!(handle.edge_count(), Some(2));
    assert!(handle.transition(b'b').is_none());
    assert!(handle.transition(b'c').is_none());
    let child = handle.transition(b'a').expect("resident child");
    assert_eq!(child.value(), Some(1));
    let labels: Vec<u8> = handle.edges().iter().map(|(label, _)| *label).collect();
    assert_eq!(labels, vec![b'a']);
    let mapped = handle.filter_map_edges(|label| if label > b'a' { Some(label) } else { None });
    assert!(mapped.is_empty());
}

#[test]
fn cursors_of_another_projection_are_not_held() {
    let root = insert(&Arc::new(OverlayNode::<ByteKey, u64>::new()), b"ab", 1);
    let mut handle = OverlayDictionaryNode::<ByteKey, u64>::from_overlay_root(root, None);
    let far = SnapshotTraversalCursor::from_index(7).expect("cursor");
    assert!(SnapshotTraversalCursor::from_index(usize::MAX).is_none());
    assert!(!handle.contains_snapshot_cursor(far));
    handle.snapshot_root_cursor().expect("root");
    assert!(!handle.contains_snapshot_cursor(far));
    assert_eq!(handle.snapshot_cursor_value(far), None);
    assert_eq!(handle.snapshot_cursor_transition(far, b'a'), None);
    assert!(handle.snapshot_cursor_node(far).is_none());
    assert!(handle.visit_snapshot_cursor_edge_page(far, 0, 1).is_none());
}

#[test]
fn a_code_point_that_is_no_character_has_no_token() {
    assert_eq!(CharKey::unit_to_token('\u{96ea}' as u32), Some('\u{96ea}'));
    assert_eq!(CharKey::unit_to_token(0xD800), None);
    assert_eq!(CharKey::unit_to_token(0x11_0000), None);
    assert_eq!(CharKey::token_to_unit('a'), 97);
    assert_eq!(ByteKey::unit_to_token(200), Some(200));
    assert_eq!(U64Key::token_to_unit(u64::MAX), u64::MAX);
}
