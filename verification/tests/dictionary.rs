use std::cmp::Ordering;
use std::sync::Arc;

use persistent_artrie::byte_order::{bytes_gt, bytes_le, simd_cmp_bytes};
use persistent_artrie::child_node::{ChildNode, NodeHeader, StringBucket};
use persistent_artrie::cursor_iter::{iter_prefix_from_cursor, overlay_iter_prefix_with_values};
use persistent_artrie::dict_impl::{
    close_steps, resolve_child_for_mutation_with_bm, root_or_empty, root_with_term_count,
    CloseStep,
};
use persistent_artrie::key_encoding::{ByteKey, CharKey};
use persistent_artrie::overlay::atomic_ptr::AtomicNodePtr;
use persistent_artrie::overlay::cas_walk::find_leaf_iterative;
use persistent_artrie::overlay::f5_build::build_overlay_root_from_terms;
use persistent_artrie::overlay::node::{release_tree, Child, OverlayNode};
use persistent_artrie::swizzled_ptr::{NodeType, SwizzledPtr};

fn no_header(_: &[u8]) -> Option<NodeHeader> {
    None
}

fn pages() -> Option<fn(u32) -> Option<Vec<u8>>> {
    None
}

fn trie(terms: &[(&str, u64)]) -> Arc<OverlayNode<ByteKey, u64>> {
    build_overlay_root_from_terms(
        terms
            .iter()
            .map(|(term, value)| (term.as_bytes().to_vec(), Some(*value)))
            .collect(),
        None,
    )
}

#[test]
fn test_simd_cmp_empty_slices() {
    assert!(bytes_le(b"", b""));
    assert!(!bytes_gt(b"", b""));
}

#[test]
fn test_simd_cmp_different_lengths_prefix() {
    assert!(bytes_le(b"abc", b"abcd"));
    assert!(bytes_gt(b"abcd", b"abc"));
}

#[test]
fn test_simd_cmp_first_byte_difference() {
    assert!(bytes_le(b"a", b"b"));
    assert!(bytes_gt(b"b", b"a"));
}

#[test]
fn test_simd_cmp_position_1_difference() {
    assert!(bytes_le(b"aa", b"ab"));
    assert!(bytes_gt(b"ab", b"aa"));
}

#[test]
fn test_simd_cmp_mid_chunk_difference() {
    let a = b"aaaaaaaa_aaaaaaa";
    let b = b"aaaaaaaazaaaaaaa";
    assert!(bytes_le(a, b));
    assert!(bytes_gt(b, a));
}

#[test]
fn test_simd_cmp_position_15_difference() {
    let a = b"aaaaaaaaaaaaaaax";
    let b = b"aaaaaaaaaaaaaaay";
    assert!(bytes_le(a, b));
    assert!(bytes_gt(b, a));
}

#[test]
fn test_simd_cmp_across_chunk_boundary() {
    let a = b"aaaaaaaaaaaaaaaa_bbbbbbbbbbbbbbb";
    let b = b"aaaaaaaaaaaaaaaa~bbbbbbbbbbbbbbb";
    assert!(bytes_le(a, b));
    assert!(bytes_gt(b, a));
}

#[test]
fn test_simd_cmp_long_equal_prefix() {
    let mut a = vec![b'x'; 100];
    let mut b = vec![b'x'; 100];
    a.push(b'a');
    b.push(b'b');
    assert!(bytes_le(&a, &b));
    assert!(bytes_gt(&b, &a));
}

#[test]
fn test_simd_cmp_scalar_fallback() {
    let a = b"hello";
    let b = b"helli";
    assert!(bytes_gt(a, b));
    assert!(bytes_le(b, a));
}

#[test]
fn test_simd_cmp_exactly_16_bytes() {
    let a = b"abcdefghijklmnop";
    let b = b"abcdefghijklmnop";
    assert!(bytes_le(a, b));
    assert!(!bytes_gt(a, b));
}

#[test]
fn test_simd_cmp_all_positions_in_chunk() {
    for pos in 0..16 {
        let mut a = vec![b'a'; 16];
        let mut b = vec![b'a'; 16];
        a[pos] = b'x';
        b[pos] = b'y';

        assert!(bytes_le(&a, &b), "bytes_le failed at position {}", pos);
        assert!(bytes_gt(&b, &a), "bytes_gt failed at position {}", pos);
    }
}

#[test]
fn test_simd_cmp_utf8_multibyte() {
    let a = "hello世界";
    let b = "hello地球";
    assert!(
        bytes_le(a.as_bytes(), b.as_bytes()) || bytes_gt(a.as_bytes(), b.as_bytes()),
        "One must be true"
    );
}

#[test]
fn test_bytes_le_equality() {
    assert!(bytes_le(b"test", b"test"));
    assert!(!bytes_gt(b"test", b"test"));
}

#[test]
fn test_simd_cmp_binary_data() {
    let a: &[u8] = &[0xFF, 0xFE, 0xFD, 0xFC];
    let b: &[u8] = &[0xFF, 0xFE, 0xFD, 0xFB];
    assert!(bytes_gt(a, b));
}

#[test]
fn test_simd_cmp_null_bytes() {
    let a = b"\x00\x00\x01";
    let b = b"\x00\x00\x02";
    assert!(bytes_le(a, b));
    assert!(bytes_gt(b, a));
}

#[test]
fn bytes_are_ordered_as_slices_are() {
    let words: [&[u8]; 6] = [b"", b"a", b"ab", b"b", b"\xff", b"a\x00"];
    for a in words {
        for b in words {
            assert_eq!(simd_cmp_bytes(a, b), a.cmp(b));
        }
    }
    assert_eq!(simd_cmp_bytes(b"a", b"b"), Ordering::Less);
}

#[test]
fn test_resolve_child_already_in_memory() {
    let bucket = StringBucket::new();
    let mut child = ChildNode::Bucket(bucket);
    assert!(resolve_child_for_mutation_with_bm(&mut child, pages(), no_header));
}

#[test]
fn test_resolve_child_art_node_already_in_memory() {
    let mut child = ChildNode::ArtNode {
        node: NodeHeader::new(),
        is_final: false,
        value: None,
        children: Vec::new(),
    };
    assert!(resolve_child_for_mutation_with_bm(&mut child, pages(), no_header));
}

#[test]
fn test_resolve_child_disk_ref_no_buffer_manager() {
    let ptr = SwizzledPtr::on_disk(1, 0, NodeType::Node4);
    let mut child = ChildNode::DiskRef { ptr };
    assert!(!resolve_child_for_mutation_with_bm(&mut child, pages(), no_header));
}

#[test]
fn a_durable_child_is_decoded_from_its_offset() {
    let fetch = |block: u32| {
        if block == 3 {
            Some(vec![0, 0, 9, 8])
        } else {
            None
        }
    };
    let decode = |bytes: &[u8]| {
        if bytes == [9, 8] {
            Some(NodeHeader {
                is_final: true,
                is_dirty: false,
                has_dirty_descendants: false,
            })
        } else {
            None
        }
    };
    let mut child = ChildNode::DiskRef {
        ptr: SwizzledPtr::on_disk(3, 2, NodeType::Node48),
    };
    assert!(resolve_child_for_mutation_with_bm(&mut child, Some(fetch), decode));
    assert!(matches!(child, ChildNode::ArtNode { is_final: true, .. }));

    let mut leaf = ChildNode::DiskRef {
        ptr: SwizzledPtr::on_disk(3, 2, NodeType::Bucket),
    };
    assert!(resolve_child_for_mutation_with_bm(&mut leaf, Some(fetch), decode));
    assert!(matches!(leaf, ChildNode::Bucket(_)));

    for ptr in [
        SwizzledPtr::on_disk(4, 2, NodeType::Node48),
        SwizzledPtr::on_disk(3, 1, NodeType::Node48),
        SwizzledPtr::on_disk(3, 2, NodeType::CharNode4),
        SwizzledPtr::null(),
    ] {
        let mut child = ChildNode::DiskRef { ptr };
        assert!(!resolve_child_for_mutation_with_bm(&mut child, Some(fetch), decode));
        assert!(matches!(child, ChildNode::DiskRef { .. }));
    }
}

#[test]
fn cursor_iteration_preserves_overlay_order_and_stops_at_limit() {
    let root = trie(&[
        ("az", 5),
        ("aa", 1),
        ("ac", 3),
        ("ab", 2),
        ("ad", 4),
        ("b", 6),
    ]);

    let entries = iter_prefix_from_cursor(&root, b"a", Some(b"aa"), 3);
    let got: Vec<_> = entries
        .into_iter()
        .map(|entry| (String::from_utf8(entry.term).expect("utf8"), entry.value))
        .collect();

    assert_eq!(
        got,
        vec![
            ("ab".to_string(), 2),
            ("ac".to_string(), 3),
            ("ad".to_string(), 4),
        ]
    );
}

#[test]
fn cursor_iteration_zero_limit_returns_empty_without_prefix_lookup() {
    let root = trie(&[("a", 1)]);

    let entries = iter_prefix_from_cursor(&root, b"missing", None, 0);

    assert!(entries.is_empty());
}

#[test]
fn batches_that_continue_each_other_give_all_terms() {
    let root = trie(&[("aa", 1), ("b", 2), ("a", 3), ("ab", 4), ("abc", 5)]);
    let all = overlay_iter_prefix_with_values(&root, b"a");
    let terms: Vec<Vec<u8>> = all.iter().map(|(term, _)| term.clone()).collect();
    assert_eq!(
        terms,
        vec![b"a".to_vec(), b"aa".to_vec(), b"ab".to_vec(), b"abc".to_vec()]
    );
    let mut cursor: Option<Vec<u8>> = None;
    let mut seen = Vec::new();
    loop {
        let batch = iter_prefix_from_cursor(&root, b"a", cursor.as_deref(), 3);
        if batch.is_empty() {
            break;
        }
        for entry in batch {
            assert_eq!(entry.arena_id, None);
            cursor = Some(entry.term.clone());
            seen.push((entry.term, entry.value));
        }
    }
    assert_eq!(seen, all);
    assert!(overlay_iter_prefix_with_values(&root, b"zz").is_empty());
}

#[test]
fn closing_stops_writers_before_the_last_sync() {
    assert_eq!(
        close_steps(true, true, true),
        vec![
            CloseStep::StopEviction,
            CloseStep::StopLogSync,
            CloseStep::SyncLog,
            CloseStep::FlushPages
        ]
    );
    assert_eq!(close_steps(false, false, true), vec![CloseStep::FlushPages]);
}

#[test]
fn the_root_and_its_count_come_from_one_revision() {
    let root = trie(&[("a", 1), ("b", 2)]);
    let slot = AtomicNodePtr::new_with_term_count(Arc::clone(&root), 2);
    let (handle, count) = root_with_term_count(Some(&slot));
    assert_eq!(count, 2);
    assert_eq!(handle.edge_count(), Some(2));
    let (empty, none) = root_with_term_count::<u64>(None);
    assert_eq!(none, 0);
    assert_eq!(empty.edge_count(), Some(0));
    let (given, count) = root_or_empty(Some((root, 9)));
    assert_eq!(count, 9);
    assert_eq!(given.transition(b'b').expect("child").value(), Some(2));
}

#[test]
fn the_last_value_of_a_listed_term_counts() {
    let root = build_overlay_root_from_terms::<ByteKey, u64>(
        vec![
            (b"ab".to_vec(), Some(1)),
            (b"a".to_vec(), None),
            (b"ab".to_vec(), Some(7)),
        ],
        Some(Some(3)),
    );
    assert!(root.is_final());
    assert_eq!(root.get_value(), Some(3));
    let ab = find_leaf_iterative(&root, b"ab", 0).expect("ab");
    assert_eq!(ab.get_value(), Some(7));
    let a = find_leaf_iterative(&root, b"a", 0).expect("a");
    assert_eq!(a.get_value(), None);

    let units: Vec<u32> = "\u{e9}t\u{e9}".chars().map(|c| c as u32).collect();
    let chars = build_overlay_root_from_terms::<CharKey, u64>(vec![(units.clone(), Some(2))], None);
    assert!(!chars.is_final());
    let leaf = find_leaf_iterative(&chars, &units, 0).expect("leaf");
    assert_eq!(leaf.get_value(), Some(2));
}

#[test]
fn a_long_listed_term_needs_no_deep_stack() {
    let key = vec![b'k'; 50_000];
    let root = build_overlay_root_from_terms::<ByteKey, u64>(vec![(key.clone(), Some(1))], None);
    let leaf = find_leaf_iterative(&root, &key, 0).expect("leaf");
    assert_eq!(leaf.get_value(), Some(1));
    drop(leaf);
    release_tree(root);
}

#[test]
fn a_changed_node_counts_its_version_and_loses_its_stamp() {
    let node = OverlayNode::<ByteKey, u64>::new().with_durable_stamp(8);
    assert_eq!(node.durable_stamp(), 8);
    let child = Child::OnDisk(SwizzledPtr::on_disk(1, 2, NodeType::Node4));
    let next = node.with_child(b'q', child);
    assert_eq!(next.version(), node.version() + 1);
    assert_eq!(next.durable_stamp(), 0);
    assert!(next.find_child(b'q').is_some());
    assert!(next.find_child(b'r').is_none());
}
