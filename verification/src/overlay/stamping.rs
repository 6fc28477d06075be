//! The stamps of a serialization, applied to the whole trie.

use std::collections::HashMap;
use std::sync::Arc;
use vstd::prelude::*;
use crate::key_encoding::KeyEncoding;
use crate::shared::{handle_address, same_handle, share, told_address, told_same};
use crate::value::{duplicate_option, DictionaryValue};
use super::atomic_ptr::DeferredDurableStamp;
use super::graph_policy::{index_told, indexed, indexed_entry, lemma_index_push};
use super::model::{at, kid};
use super::node::{lemma_kids_steps_monotone, lemma_slot, Child, OverlayNode};

verus! {

broadcast use vstd::std_specs::hash::group_hash_axioms;

/// The nodes that stamps are for.
pub open spec fn stamp_nodes<K: KeyEncoding, V>(stamps: Seq<DeferredDurableStamp<K, V>>) -> Seq<
    Arc<OverlayNode<K, V>>,
> {
    Seq::new(stamps.len(), |i: int| stamps[i].node)
}

/// The stamp of a node once stamps were applied: the one that is indexed under its
/// address, if it is for the same allocation, or the one that the node had.
pub open spec fn stamp_told<K: KeyEncoding, V>(
    stamps: Seq<DeferredDurableStamp<K, V>>,
    index: Map<u64, usize>,
    node: Arc<OverlayNode<K, V>>,
    raw: u64,
) -> bool {
    exists|address: u64, position: Option<usize>|
        told_address(node, address) && #[trigger] indexed_entry(
            stamp_nodes(stamps),
            index,
            address,
            node,
            position,
        ) && raw == (match position {
            Some(i) => stamps[i as int].raw,
            None => node.stamp,
        })
}

/// A trie and the same trie with stamps applied.
pub open spec fn stamped<K: KeyEncoding, V>(
    stamps: Seq<DeferredDurableStamp<K, V>>,
    index: Map<u64, usize>,
    before: Arc<OverlayNode<K, V>>,
    after: Arc<OverlayNode<K, V>>,
) -> bool
    decreases before,
{
    &&& stamp_told(stamps, index, before, after.stamp)
    &&& after.final_flag == before.final_flag
    &&& after.value == before.value
    &&& after.version == before.version
    &&& after.children@.len() == before.children@.len()
    &&& forall|i: int|
        0 <= i < before.children@.len() ==> (#[trigger] before.children@[i]).0
            == after.children@[i].0 && match before.children@[i].1 {
            Child::InMem(child) => after.children@[i].1 matches Child::InMem(copy) && stamped(
                stamps,
                index,
                child,
                copy,
            ),
            Child::OnDisk(pointer) => after.children@[i].1 == Child::<K, V>::OnDisk(pointer),
        }
}

/// A child slot and the same slot with stamps applied.
spec fn slot_stamped<K: KeyEncoding, V>(
    stamps: Seq<DeferredDurableStamp<K, V>>,
    index: Map<u64, usize>,
    before: (K::Unit, Child<K, V>),
    after: (K::Unit, Child<K, V>),
) -> bool {
    &&& before.0 == after.0
    &&& match before.1 {
        Child::InMem(child) => after.1 matches Child::InMem(copy) && copy.wf() && stamped(
            stamps,
            index,
            child,
            copy,
        ),
        Child::OnDisk(pointer) => after.1 == Child::<K, V>::OnDisk(pointer),
    }
}

/// A node whose children are being stamped: those before `next` were begun.
struct StampFrame<K: KeyEncoding, V> {
    node: Arc<OverlayNode<K, V>>,
    children: Vec<(K::Unit, Child<K, V>)>,
    next: usize,
}

impl<K: KeyEncoding, V> StampFrame<K, V> {
    spec fn ok(self, stamps: Seq<DeferredDurableStamp<K, V>>, index: Map<u64, usize>) -> bool {
        &&& self.node.wf()
        &&& self.next <= self.node.children@.len()
        &&& self.children@.len() <= self.next
        &&& forall|i: int|
            0 <= i < self.children@.len() ==> slot_stamped(
                stamps,
                index,
                self.node.children@[i],
                #[trigger] self.children@[i],
            )
    }

    spec fn left(self) -> int {
        1 + self.node.kids_steps(self.node.children@.len()) - self.node.kids_steps(
            self.next as nat,
        )
    }
}

/// A frame waits for the one above it.
spec fn waits<K: KeyEncoding, V>(stack: Seq<StampFrame<K, V>>, k: int) -> bool {
    &&& stack[k].next == stack[k].children@.len() + 1
    &&& stack[k].node.children@[stack[k].next - 1].1 == Child::<K, V>::InMem(stack[k + 1].node)
}

/// The frames of a stack fit together.
#[verifier::opaque]
spec fn stamping<K: KeyEncoding, V>(
    stack: Seq<StampFrame<K, V>>,
    stamps: Seq<DeferredDurableStamp<K, V>>,
    index: Map<u64, usize>,
    root: Arc<OverlayNode<K, V>>,
) -> bool {
    &&& forall|k: int| 0 <= k < stack.len() ==> (#[trigger] stack[k]).ok(stamps, index)
    &&& forall|k: int| 0 <= k < stack.len() - 1 ==> #[trigger] waits(stack, k)
    &&& stack.len() > 0 ==> stack[0].node == root
}

/// The steps left on a stack.
spec fn stamping_left<K: KeyEncoding, V>(stack: Seq<StampFrame<K, V>>) -> int
    decreases stack.len(),
{
    if stack.len() == 0 {
        0
    } else {
        stamping_left(stack.drop_last()) + stack.last().left()
    }
}

/// Steps left are never negative.
proof fn lemma_stamping_left<K: KeyEncoding, V>(
    stack: Seq<StampFrame<K, V>>,
    stamps: Seq<DeferredDurableStamp<K, V>>,
    index: Map<u64, usize>,
    root: Arc<OverlayNode<K, V>>,
)
    requires
        stamping(stack, stamps, index, root),
    ensures
        stamping_left(stack) >= 0,
    decreases stack.len(),
{
    if stack.len() > 0 {
        lemma_stamping_pop(stack, stamps, index, root);
        lemma_stamping_left(stack.drop_last(), stamps, index, root);
        let node = *stack.last().node;
        lemma_kids_steps_monotone(node, stack.last().next as nat, node.children@.len());
    }
}

/// The frame on top, and those below it.
proof fn lemma_stamping_pop<K: KeyEncoding, V>(
    stack: Seq<StampFrame<K, V>>,
    stamps: Seq<DeferredDurableStamp<K, V>>,
    index: Map<u64, usize>,
    root: Arc<OverlayNode<K, V>>,
)
    requires
        stamping(stack, stamps, index, root),
        stack.len() > 0,
    ensures
        stamping(stack.drop_last(), stamps, index, root),
        stack.last().ok(stamps, index),
        stack.len() == 1 ==> stack.last().node == root,
        stack.len() > 1 ==> waits(stack, stack.len() - 2),
{
    reveal(stamping);
    let rest = stack.drop_last();
    assert(stack[stack.len() - 1] == stack.last());
    assert forall|k: int| 0 <= k < rest.len() implies (#[trigger] rest[k]).ok(stamps, index) by {
        assert(rest[k] == stack[k]);
    }
    assert forall|k: int| 0 <= k < rest.len() - 1 implies #[trigger] waits(rest, k) by {
        assert(waits(stack, k));
        assert(rest[k] == stack[k] && rest[k + 1] == stack[k + 1]);
    }
    if stack.len() > 1 {
        assert(waits(stack, stack.len() - 2));
    }
}

/// A frame on top.
proof fn lemma_stamping_push<K: KeyEncoding, V>(
    stack: Seq<StampFrame<K, V>>,
    frame: StampFrame<K, V>,
    stamps: Seq<DeferredDurableStamp<K, V>>,
    index: Map<u64, usize>,
    root: Arc<OverlayNode<K, V>>,
)
    requires
        stamping(stack, stamps, index, root),
        frame.ok(stamps, index),
        stack.len() == 0 ==> frame.node == root,
        stack.len() > 0 ==> waits(stack.push(frame), stack.len() - 1),
    ensures
        stamping(stack.push(frame), stamps, index, root),
        stamping_left(stack.push(frame)) == stamping_left(stack) + frame.left(),
{
    reveal(stamping);
    let longer = stack.push(frame);
    assert forall|k: int| 0 <= k < longer.len() implies (#[trigger] longer[k]).ok(
        stamps,
        index,
    ) by {
        if k < stack.len() {
            assert(longer[k] == stack[k]);
        }
    }
    assert forall|k: int| 0 <= k < longer.len() - 1 implies #[trigger] waits(longer, k) by {
        if k < stack.len() - 1 {
            assert(waits(stack, k));
            assert(longer[k] == stack[k] && longer[k + 1] == stack[k + 1]);
        }
    }
    assert(longer.drop_last() =~= stack);
}

/// The stamps by the addresses of their nodes. A later stamp of an address replaces
/// an earlier one.
fn index_stamps<K: KeyEncoding, V: DictionaryValue>(stamps: &Vec<DeferredDurableStamp<K, V>>) -> (r:
    HashMap<u64, usize>)
    ensures
        index_told(stamp_nodes(stamps@), r@),
{
    let mut index: HashMap<u64, usize> = HashMap::new();
    let mut i: usize = 0;
    proof {
        assert(stamp_nodes(stamps@).take(0) =~= Seq::empty());
    }
    while i < stamps.len()
        invariant
            i <= stamps@.len(),
            index_told(stamp_nodes(stamps@).take(i as int), index@),
        decreases stamps@.len() - i,
    {
        let address: u64 = handle_address(&stamps[i].node);
        proof {
            let nodes = stamp_nodes(stamps@);
            lemma_index_push(nodes.take(i as int), index@, nodes[i as int], address);
            assert(nodes.take(i + 1) =~= nodes.take(i as int).push(nodes[i as int]));
        }
        index.insert(address, i);
        i += 1;
    }
    assert(stamp_nodes(stamps@).take(i as int) =~= stamp_nodes(stamps@));
    index
}

/// The stamp of a node once stamps were applied.
fn stamp_for<K: KeyEncoding, V: DictionaryValue>(
    stamps: &Vec<DeferredDurableStamp<K, V>>,
    index: &HashMap<u64, usize>,
    node: &Arc<OverlayNode<K, V>>,
) -> (r: u64)
    ensures
        stamp_told(stamps@, index@, *node, r),
{
    let address: u64 = handle_address(node);
    let ghost nodes = stamp_nodes(stamps@);
    match indexed(index, address, stamps.len()) {
        Some(i) => {
            let same: bool = same_handle(&stamps[i].node, node);
            assert(told_same(nodes[i as int], *node, same));
            if same {
                assert(indexed_entry(nodes, index@, address, *node, Some(i)));
                stamps[i].raw
            } else {
                assert(indexed_entry(nodes, index@, address, *node, None));
                node.stamp
            }
        },
        None => {
            assert(indexed_entry(nodes, index@, address, *node, None));
            node.stamp
        },
    }
}

/// A trie with stamps applied: every node that a stamp is for has that stamp, and
/// nothing else changes. The root may be a newer one than that which was serialized: the
/// nodes that it shares with it are stamped. A node with several parents is copied for
/// each.
pub fn stamped_root<K: KeyEncoding, V: DictionaryValue>(
    root: &Arc<OverlayNode<K, V>>,
    stamps: &Vec<DeferredDurableStamp<K, V>>,
) -> (r: Arc<OverlayNode<K, V>>)
    requires
        root.wf(),
    ensures
        r.wf(),
        exists|index: Map<u64, usize>|
            index_told(stamp_nodes(stamps@), index) && #[trigger] stamped(
                stamps@,
                index,
                *root,
                r,
            ),
{
    let index = index_stamps(stamps);
    let mut stack: Vec<StampFrame<K, V>> = Vec::new();
    proof {
        assert(stamping(stack@, stamps@, index@, *root)) by {
            reveal(stamping);
        }
    }
    let mut top: StampFrame<K, V> = StampFrame { node: share(root), children: Vec::new(), next: 0 };
    proof {
        lemma_stamping_push(stack@, top, stamps@, index@, *root);
        lemma_stamping_left(stack@.push(top), stamps@, index@, *root);
    }
    loop
        invariant
            root.wf(),
            index_told(stamp_nodes(stamps@), index@),
            stamping(stack@.push(top), stamps@, index@, *root),
            top.next == top.children@.len(),
            stamping_left(stack@.push(top)) >= 0,
        decreases stamping_left(stack@.push(top)),
    {
        let ghost walk = stack@.push(top);
        let ghost begun = top;
        proof {
            lemma_stamping_pop(walk, stamps@, index@, *root);
            assert(walk.drop_last() =~= stack@);
        }
        if top.next < top.node.children.len() {
            let slot: usize = top.next;
            let unit: K::Unit = top.node.children[slot].0;
            let ghost node = top.node;
            assert(node.kids_steps((slot + 1) as nat) == node.kids_steps(slot as nat)
                + match node.children@[slot as int].1 {
                Child::InMem(child) => child.steps(),
                Child::OnDisk(_) => 1,
            });
            match &top.node.children[slot].1 {
                Child::OnDisk(pointer) => {
                    let copy = (unit, Child::OnDisk(*pointer));
                    top.children.push(copy);
                    top.next = slot + 1;
                    proof {
                        assert forall|i: int| 0 <= i < top.children@.len() implies slot_stamped(
                            stamps@,
                            index@,
                            top.node.children@[i],
                            #[trigger] top.children@[i],
                        ) by {
                            if i < slot {
                                assert(top.children@[i] == begun.children@[i]);
                            }
                        }
                        lemma_goes_on(walk, top, stamps@, index@, *root);
                    }
                },
                Child::InMem(child) => {
                    let below: StampFrame<K, V> = StampFrame {
                        node: share(child),
                        children: Vec::new(),
                        next: 0,
                    };
                    top.next = slot + 1;
                    proof {
                        assert(child.wf());
                        lemma_goes_on(walk, top, stamps@, index@, *root);
                        let longer = stack@.push(top);
                        let deeper = longer.push(below);
                        assert(deeper[longer.len() - 1] == top);
                        assert(deeper[longer.len() as int] == below);
                        assert(waits(deeper, longer.len() - 1));
                        lemma_stamping_push(longer, below, stamps@, index@, *root);
                        lemma_stamping_left(deeper, stamps@, index@, *root);
                    }
                    stack.push(top);
                    top = below;
                },
            }
        } else {
            let raw: u64 = stamp_for(stamps, &index, &top.node);
            let StampFrame { node, children, next: _ } = top;
            let done: Arc<OverlayNode<K, V>> = Arc::new(
                OverlayNode {
                    children,
                    final_flag: node.final_flag,
                    value: duplicate_option(&node.value),
                    version: node.version,
                    stamp: raw,
                },
            );
            proof {
                lemma_node_stamped(begun, done, stamps@, index@);
                let content = *begun.node;
                lemma_kids_steps_monotone(content, begun.next as nat, content.children@.len());
            }
            match stack.pop() {
                None => {
                    return done;
                },
                Some(parent) => {
                    let ghost rest = walk.drop_last();
                    let ghost waiting = parent;
                    proof {
                        assert(waits(walk, walk.len() - 2));
                        assert(walk[walk.len() - 2] == parent);
                        assert(walk[walk.len() - 1] == begun);
                        assert(rest.last() == parent);
                        assert(stack@ =~= rest.drop_last());
                        lemma_stamping_pop(rest, stamps@, index@, *root);
                    }
                    let mut parent = parent;
                    let slot: usize = parent.next - 1;
                    let unit: K::Unit = parent.node.children[slot].0;
                    parent.children.push((unit, Child::InMem(done)));
                    proof {
                        assert forall|i: int| 0 <= i < parent.children@.len() implies slot_stamped(
                            stamps@,
                            index@,
                            parent.node.children@[i],
                            #[trigger] parent.children@[i],
                        ) by {
                            if i < slot {
                                assert(parent.children@[i] == waiting.children@[i]);
                            }
                        }
                        lemma_goes_on(rest, parent, stamps@, index@, *root);
                        lemma_stamping_left(stack@.push(parent), stamps@, index@, *root);
                    }
                    top = parent;
                },
            }
        }
        proof {
            lemma_stamping_left(stack@.push(top), stamps@, index@, *root);
        }
    }
}

/// The frame on top goes on.
proof fn lemma_goes_on<K: KeyEncoding, V>(
    stack: Seq<StampFrame<K, V>>,
    frame: StampFrame<K, V>,
    stamps: Seq<DeferredDurableStamp<K, V>>,
    index: Map<u64, usize>,
    root: Arc<OverlayNode<K, V>>,
)
    requires
        stamping(stack, stamps, index, root),
        stack.len() > 0,
        frame.ok(stamps, index),
        frame.node == stack.last().node,
    ensures
        stamping(stack.drop_last().push(frame), stamps, index, root),
        stamping_left(stack.drop_last().push(frame)) == stamping_left(stack) - stack.last().left()
            + frame.left(),
{
    lemma_stamping_pop(stack, stamps, index, root);
    let rest = stack.drop_last();
    let next = rest.push(frame);
    if rest.len() > 0 {
        assert(waits(stack, stack.len() - 2));
        assert(next[rest.len() - 1] == stack[stack.len() - 2]);
        assert(next[rest.len() as int] == frame);
        assert(stack[stack.len() - 1] == stack.last());
        assert(waits(next, rest.len() - 1));
    }
    lemma_stamping_push(rest, frame, stamps, index, root);
}

/// A node whose children are stamped, with its own stamp.
proof fn lemma_node_stamped<K: KeyEncoding, V>(
    frame: StampFrame<K, V>,
    done: Arc<OverlayNode<K, V>>,
    stamps: Seq<DeferredDurableStamp<K, V>>,
    index: Map<u64, usize>,
)
    requires
        frame.ok(stamps, index),
        frame.children@.len() == frame.node.children@.len(),
        done.children@ == frame.children@,
        done.final_flag == frame.node.final_flag,
        done.value == frame.node.value,
        done.version == frame.node.version,
        stamp_told(stamps, index, frame.node, done.stamp),
    ensures
        stamped(stamps, index, frame.node, done),
        done.wf(),
{
    let before = frame.node;
    assert forall|i: int| 0 <= i < before.children@.len() implies (
    #[trigger] before.children@[i]).0 == done.children@[i].0 && match before.children@[i].1 {
        Child::InMem(child) => done.children@[i].1 matches Child::InMem(copy) && stamped(
            stamps,
            index,
            child,
            copy,
        ),
        Child::OnDisk(pointer) => done.children@[i].1 == Child::<K, V>::OnDisk(pointer),
    } by {
        assert(slot_stamped(stamps, index, before.children@[i], frame.children@[i]));
    }
    assert forall|i: int| 0 <= i < done.children@.len() implies match #[trigger] done.children@[i].1 {
        Child::InMem(node) => node.wf(),
        Child::OnDisk(_) => true,
    } by {
        assert(slot_stamped(stamps, index, before.children@[i], frame.children@[i]));
    }
}

/// Applying stamps keeps every term: at each path there is a node after as before, as
/// final, with the same value and version.
pub proof fn stamping_keeps_terms<K: KeyEncoding, V>(
    stamps: Seq<DeferredDurableStamp<K, V>>,
    index: Map<u64, usize>,
    before: Arc<OverlayNode<K, V>>,
    after: Arc<OverlayNode<K, V>>,
    path: Seq<K::Unit>,
)
    requires
        before.wf(),
        after.wf(),
        stamped(stamps, index, before, after),
    ensures
        match at(before@, path) {
            Some(old_node) => at(after@, path) matches Some(node) && node.is_final
                == old_node.is_final && node.value == old_node.value && node.version
                == old_node.version,
            None => at(after@, path) is None,
        },
    decreases path.len(),
{
    if path.len() > 0 {
        let content = *before;
        let copy = *after;
        if exists|t: int|
            0 <= t < content.children@.len() && #[trigger] content.children@[t].0 == path[0] {
            let t = choose|t: int|
                0 <= t < content.children@.len() && #[trigger] content.children@[t].0 == path[0];
            lemma_slot(content, t);
            lemma_slot(copy, t);
            assert(content.children@[t].0 == copy.children@[t].0);
            if let Child::InMem(child) = content.children@[t].1 {
                let other = copy.children@[t].1->InMem_0;
                stamping_keeps_terms(stamps, index, child, other, path.drop_first());
            }
        } else {
            assert(kid(content@, path[0]) is None);
            assert(kid(copy@, path[0]) is None) by {
                if exists|t: int|
                    0 <= t < copy.children@.len() && #[trigger] copy.children@[t].0 == path[0] {
                    let t = choose|t: int|
                        0 <= t < copy.children@.len() && #[trigger] copy.children@[t].0 == path[0];
                    assert(content.children@[t].0 == copy.children@[t].0);
                }
            }
        }
    }
}

} // verus!
