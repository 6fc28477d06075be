//! Building an overlay from a list of terms.
//!
//! The terms first go into a table of builder nodes, one node for each unit of a
//! path. Children come after their parents in the table, so one pass from its end
//! to its begin turns it into overlay nodes. Neither phase recurses.

use std::sync::Arc;
use vstd::prelude::*;
use crate::key_encoding::KeyEncoding;
use crate::shared::share;
use crate::value::{duplicate_option, DictionaryValue};
use super::model::{at, kid, lemma_at_concat, term};
use super::node::{Branch, Child, OverlayNode, Tree};

verus! {

/// A node under construction. `children` is sorted by edge and leads to positions
/// in the table.
pub struct OverlayBuilderNode<K: KeyEncoding, V> {
    pub is_final: bool,
    pub value: Option<V>,
    pub children: Vec<(K::Unit, usize)>,
    /// The units from the root to this node.
    pub path: Ghost<Seq<K::Unit>>,
}

/// What a list of terms stores under a key: the last value that the list gives the
/// key, if it names the key at all.
pub open spec fn listed_term<U, V>(
    terms: Seq<(Vec<U>, Option<V>)>,
    empty_term: Option<Option<V>>,
    key: Seq<U>,
) -> Option<Option<V>>
    decreases terms.len(),
{
    if terms.len() == 0 {
        if key.len() == 0 {
            empty_term
        } else {
            None
        }
    } else {
        let before = listed_term(terms.drop_last(), empty_term, key);
        if terms.last().0@ == key {
            match terms.last().1 {
                Some(value) => Some(Some(value)),
                None => match before {
                    Some(value) => Some(value),
                    None => Some(None),
                },
            }
        } else {
            before
        }
    }
}

/// A path that leads to a term of a list.
pub open spec fn listed_prefix<U, V>(terms: Seq<(Vec<U>, Option<V>)>, path: Seq<U>) -> bool {
    path.len() == 0 || exists|i: int|
        0 <= i < terms.len() && path.is_prefix_of((#[trigger] terms[i]).0@)
}

impl<K: KeyEncoding, V> OverlayBuilderNode<K, V> {
    /// The slot of an edge.
    spec fn slot(self, unit: K::Unit) -> Option<int> {
        if exists|s: int| 0 <= s < self.children@.len() && (#[trigger] self.children@[s]).0 == unit {
            Some(
                choose|s: int|
                    0 <= s < self.children@.len() && (#[trigger] self.children@[s]).0 == unit,
            )
        } else {
            None
        }
    }

    /// The position that an edge leads to.
    spec fn child(self, unit: K::Unit) -> Option<int> {
        match self.slot(unit) {
            Some(s) => Some(self.children@[s].1 as int),
            None => None,
        }
    }

    /// Edges strictly increase.
    spec fn sorted(self) -> bool {
        forall|i: int, j: int|
            0 <= i < j < self.children@.len() ==> K::rank((#[trigger] self.children@[i]).0)
                < K::rank((#[trigger] self.children@[j]).0)
    }

    /// A node without terms.
    fn new(Ghost(path): Ghost<Seq<K::Unit>>) -> (r: Self)
        ensures
            !r.is_final,
            r.value is None,
            r.children@.len() == 0,
            r.path@ == path,
    {
        OverlayBuilderNode {
            is_final: false,
            value: None,
            children: Vec::new(),
            path: Ghost(path),
        }
    }

    /// The first slot whose edge is not below `unit`.
    fn lower_bound(&self, unit: K::Unit) -> (r: usize)
        requires
            self.sorted(),
        ensures
            r <= self.children@.len(),
            forall|i: int| 0 <= i < r ==> K::rank((#[trigger] self.children@[i]).0) < K::rank(unit),
            forall|i: int|
                r <= i < self.children@.len() ==> K::rank((#[trigger] self.children@[i]).0)
                    >= K::rank(unit),
    {
        let target: u64 = K::unit_rank(unit);
        let mut low: usize = 0;
        let mut high: usize = self.children.len();
        while low < high
            invariant
                low <= high <= self.children@.len(),
                target == K::rank(unit),
                self.sorted(),
                forall|i: int| 0 <= i < low ==> K::rank((#[trigger] self.children@[i]).0) < target,
                forall|i: int|
                    high <= i < self.children@.len() ==> K::rank((#[trigger] self.children@[i]).0)
                        >= target,
            decreases high - low,
        {
            let middle: usize = low + (high - low) / 2;
            if K::unit_rank(self.children[middle].0) < target {
                low = middle + 1;
            } else {
                high = middle;
            }
        }
        low
    }
}

/// The position at the end of a path.
spec fn walk<K: KeyEncoding, V>(nodes: Seq<OverlayBuilderNode<K, V>>, path: Seq<K::Unit>) -> Option<
    int,
>
    decreases path.len(),
{
    if path.len() == 0 {
        Some(0)
    } else {
        match walk(nodes, path.drop_last()) {
            Some(p) => if 0 <= p < nodes.len() {
                nodes[p].child(path.last())
            } else {
                None
            },
            None => None,
        }
    }
}

/// One edge of the table: children come later, and paths grow by the edge.
spec fn edge_ok<K: KeyEncoding, V>(
    nodes: Seq<OverlayBuilderNode<K, V>>,
    i: int,
    s: int,
) -> bool {
    let (unit, j) = nodes[i].children@[s];
    i < j < nodes.len() && nodes[j as int].path@ == nodes[i].path@.push(unit)
}

/// A node of the table.
spec fn node_ok<K: KeyEncoding, V>(nodes: Seq<OverlayBuilderNode<K, V>>, i: int) -> bool {
    &&& nodes[i].sorted()
    &&& forall|s: int| 0 <= s < nodes[i].children@.len() ==> #[trigger] edge_ok(nodes, i, s)
}

/// A table: its first node is the root.
#[verifier::opaque]
spec fn table_ok<K: KeyEncoding, V>(nodes: Seq<OverlayBuilderNode<K, V>>) -> bool {
    &&& nodes.len() > 0
    &&& nodes[0].path@.len() == 0
    &&& forall|i: int| 0 <= i < nodes.len() ==> #[trigger] node_ok(nodes, i)
    &&& blank_unless_final(nodes)
}

/// What a table stores under a key.
spec fn table_term<K: KeyEncoding, V>(
    nodes: Seq<OverlayBuilderNode<K, V>>,
    key: Seq<K::Unit>,
) -> Option<Option<V>> {
    match walk(nodes, key) {
        Some(i) => if nodes[i].is_final {
            Some(nodes[i].value)
        } else {
            None
        },
        None => None,
    }
}

/// A walk ends in the node with its path.
proof fn lemma_walk<K: KeyEncoding, V>(nodes: Seq<OverlayBuilderNode<K, V>>, path: Seq<K::Unit>)
    requires
        table_ok(nodes),
    ensures
        walk(nodes, path) matches Some(i) ==> 0 <= i < nodes.len() && nodes[i].path@ == path,
    decreases path.len(),
{
    reveal(table_ok);
    if path.len() > 0 {
        lemma_walk(nodes, path.drop_last());
        match walk(nodes, path.drop_last()) {
            Some(p) => {
                assert(node_ok(nodes, p));
                match nodes[p].slot(path.last()) {
                    Some(s) => {
                        assert(edge_ok(nodes, p, s));
                        assert(path.drop_last().push(path.last()) =~= path);
                    },
                    None => {},
                }
            },
            None => {},
        }
    } else {
        assert(nodes[0].path@ =~= path);
    }
}

/// The edges of one node are told apart by their units.
proof fn lemma_slot_unique<K: KeyEncoding, V>(node: OverlayBuilderNode<K, V>, s: int)
    requires
        node.sorted(),
        0 <= s < node.children@.len(),
    ensures
        node.slot(node.children@[s].0) == Some(s),
        node.child(node.children@[s].0) == Some(node.children@[s].1 as int),
{
    let unit = node.children@[s].0;
    assert(node.children@[s].0 == unit);
    let t = node.slot(unit)->0;
    assert(0 <= t < node.children@.len() && node.children@[t].0 == unit);
    if t < s {
        assert(K::rank(node.children@[t].0) < K::rank(node.children@[s].0));
    } else if s < t {
        assert(K::rank(node.children@[s].0) < K::rank(node.children@[t].0));
    }
}

/// Finality and value of nodes do not matter to walks.
proof fn lemma_walk_same<K: KeyEncoding, V>(
    before: Seq<OverlayBuilderNode<K, V>>,
    after: Seq<OverlayBuilderNode<K, V>>,
    path: Seq<K::Unit>,
)
    requires
        before.len() == after.len(),
        forall|i: int|
            0 <= i < before.len() ==> (#[trigger] after[i]).children@ == before[i].children@,
    ensures
        walk(after, path) == walk(before, path),
    decreases path.len(),
{
    if path.len() > 0 {
        lemma_walk_same(before, after, path.drop_last());
        match walk(before, path.drop_last()) {
            Some(p) => {
                if 0 <= p < before.len() {
                    assert(after[p].children@ == before[p].children@);
                }
            },
            None => {},
        }
    }
}

/// A new leaf adds exactly its own path.
proof fn lemma_walk_grow<K: KeyEncoding, V>(
    before: Seq<OverlayBuilderNode<K, V>>,
    after: Seq<OverlayBuilderNode<K, V>>,
    parent: int,
    unit: K::Unit,
    path: Seq<K::Unit>,
)
    requires
        table_ok(before),
        table_ok(after),
        0 <= parent < before.len(),
        after.len() == before.len() + 1,
        after[before.len() as int].children@.len() == 0,
        before[parent].child(unit) is None,
        after[parent].child(unit) == Some(before.len() as int),
        forall|other: K::Unit|
            other != unit ==> #[trigger] after[parent].child(other) == before[parent].child(other),
        forall|i: int|
            0 <= i < before.len() && i != parent ==> (#[trigger] after[i]).children@
                == before[i].children@,
    ensures
        walk(after, path) == (if path.len() > 0 && path.last() == unit && walk(
            before,
            path.drop_last(),
        ) == Some(parent) {
            Some(before.len() as int)
        } else {
            walk(before, path)
        }),
    decreases path.len(),
{
    if path.len() > 0 {
        let above = path.drop_last();
        lemma_walk_grow(before, after, parent, unit, above);
        lemma_walk(before, above);
        match walk(after, above) {
            Some(p) => {
                if p == before.len() {
                    assert(after[p].slot(path.last()) is None);
                    assert(walk(before, above) is None) by {
                        assert(walk(before, above.drop_last()) == Some(parent));
                        assert(before[parent].child(unit) is None);
                    }
                } else if p != parent {
                    assert(after[p].children@ == before[p].children@);
                }
            },
            None => {},
        }
    }
}

/// Extends a table by one child, unless it is there, and gives back its position.
fn enter_child<K: KeyEncoding, V>(
    nodes: &mut Vec<OverlayBuilderNode<K, V>>,
    parent: usize,
    unit: K::Unit,
) -> (r: usize)
    requires
        table_ok(old(nodes)@),
        parent < old(nodes)@.len(),
        walk(old(nodes)@, old(nodes)@[parent as int].path@) == Some(parent as int),
    ensures
        table_ok(final(nodes)@),
        r < final(nodes)@.len(),
        final(nodes)@[r as int].path@ == old(nodes)@[parent as int].path@.push(unit),
        walk(final(nodes)@, final(nodes)@[r as int].path@) == Some(r as int),
        forall|key: Seq<K::Unit>| #[trigger]
            table_term(final(nodes)@, key) == table_term(old(nodes)@, key),
        forall|key: Seq<K::Unit>|
            (#[trigger] walk(final(nodes)@, key) is Some) == (walk(old(nodes)@, key) is Some || key
                == final(nodes)@[r as int].path@),
{
    let ghost before = nodes@;
    proof {
        reveal(table_ok);
        assert(node_ok(before, parent as int));
    }
    let ghost above = before[parent as int].path@;
    let ghost path = above.push(unit);
    proof {
        assert(path.drop_last() =~= above);
        assert(path.last() == unit);
    }
    let slot: usize = nodes[parent].lower_bound(unit);
    if slot < nodes[parent].children.len() && K::unit_rank(nodes[parent].children[slot].0)
        == K::unit_rank(unit) {
        proof {
            K::rank_injective(before[parent as int].children@[slot as int].0, unit);
            lemma_slot_unique(before[parent as int], slot as int);
            assert(edge_ok(before, parent as int, slot as int));
        }
        return nodes[parent].children[slot].1;
    }
    let position: usize = nodes.len();
    nodes[parent].children.insert(slot, (unit, position));
    nodes.push(OverlayBuilderNode::new(Ghost(path)));
    proof {
        let after = nodes@;
        let old_node = before[parent as int];
        let new_node = after[parent as int];
        let kids = old_node.children@;
        assert(new_node.children@ == kids.insert(slot as int, (unit, position)));
        assert(new_node.path == old_node.path);
        assert forall|i: int| 0 <= i < before.len() && i != parent implies (
        #[trigger] after[i]).children@ == before[i].children@ by {
            assert(after[i] == before[i]);
        }
        assert forall|i: int| 0 <= i < before.len() implies (#[trigger] after[i]).path@
            == before[i].path@ && after[i].is_final == before[i].is_final && after[i].value
            == before[i].value by {}
        assert forall|k: int| 0 <= k < new_node.children@.len() implies #[trigger] new_node.children@[k]
            == (if k < slot {
            kids[k]
        } else if k == slot {
            (unit, position)
        } else {
            kids[k - 1]
        }) by {}
        assert(new_node.sorted()) by {
            assert forall|i: int, j: int| 0 <= i < j < new_node.children@.len() implies K::rank(
                (#[trigger] new_node.children@[i]).0,
            ) < K::rank((#[trigger] new_node.children@[j]).0) by {
                if slot < kids.len() && kids[slot as int].0 != unit {
                    if K::rank(kids[slot as int].0) == K::rank(unit) {
                        K::rank_injective(kids[slot as int].0, unit);
                    }
                }
                if i == slot {
                    assert(K::rank(kids[j - 1].0) >= K::rank(unit));
                    if j - 1 > slot {
                        assert(K::rank(kids[slot as int].0) < K::rank(kids[j - 1].0));
                    }
                }
            }
        }
        lemma_slot_unique(new_node, slot as int);
        assert(old_node.child(unit) is None) by {
            if old_node.slot(unit) is Some {
                let s = old_node.slot(unit)->0;
                if s < slot {
                    assert(K::rank(kids[s].0) < K::rank(unit));
                } else if s > slot {
                    assert(K::rank(kids[slot as int].0) < K::rank(kids[s].0));
                    assert(K::rank(kids[slot as int].0) >= K::rank(unit));
                }
            }
        }
        assert forall|other: K::Unit| other != unit implies #[trigger] new_node.child(other)
            == old_node.child(other) by {
            match old_node.slot(other) {
                Some(s) => {
                    lemma_slot_unique(old_node, s);
                    let t = if s < slot {
                        s
                    } else {
                        s + 1
                    };
                    assert(new_node.children@[t] == kids[s]);
                    lemma_slot_unique(new_node, t);
                },
                None => {
                    if new_node.slot(other) is Some {
                        let t = new_node.slot(other)->0;
                        let s = if t < slot {
                            t
                        } else {
                            t - 1
                        };
                        assert(kids[s].0 == other);
                    }
                },
            }
        }
        assert(table_ok(after)) by {
            assert forall|i: int| 0 <= i < after.len() implies #[trigger] node_ok(after, i) by {
                if i < before.len() {
                    assert(node_ok(before, i));
                    assert forall|s: int| 0 <= s < after[i].children@.len() implies #[trigger] edge_ok(
                        after,
                        i,
                        s,
                    ) by {
                        if i == parent {
                            if s < slot {
                                assert(edge_ok(before, i, s));
                            } else if s > slot {
                                assert(edge_ok(before, i, s - 1));
                            }
                        } else {
                            assert(edge_ok(before, i, s));
                        }
                    }
                }
            }
        }
        assert forall|key: Seq<K::Unit>| #[trigger] table_term(after, key) == table_term(
            before,
            key,
        ) by {
            lemma_walk_grow(before, after, parent as int, unit, key);
            lemma_walk(before, key);
        }
        assert forall|key: Seq<K::Unit>|
            (#[trigger] walk(after, key) is Some) == (walk(before, key) is Some || key == path) by {
            lemma_walk_grow(before, after, parent as int, unit, key);
            if key.len() > 0 && key.last() == unit && walk(before, key.drop_last()) == Some(
                parent as int,
            ) {
                lemma_walk(before, key.drop_last());
                assert(key =~= path);
            }
        }
        lemma_walk_grow(before, after, parent as int, unit, path);
    }
    position
}

/// Adds one term to a table.
fn insert_term<K: KeyEncoding, V: DictionaryValue>(
    nodes: &mut Vec<OverlayBuilderNode<K, V>>,
    units: &Vec<K::Unit>,
    value: Option<V>,
)
    requires
        table_ok(old(nodes)@),
    ensures
        table_ok(final(nodes)@),
        forall|key: Seq<K::Unit>| #[trigger]
            table_term(final(nodes)@, key) == (if key == units@ {
                match value {
                    Some(v) => Some(Some(v)),
                    None => match table_term(old(nodes)@, key) {
                        Some(v) => Some(v),
                        None => Some(None),
                    },
                }
            } else {
                table_term(old(nodes)@, key)
            }),
        forall|key: Seq<K::Unit>|
            (#[trigger] walk(final(nodes)@, key) is Some) == (walk(old(nodes)@, key) is Some
                || key.is_prefix_of(units@)),
{
    let ghost before = nodes@;
    let mut current: usize = 0;
    let mut i: usize = 0;
    proof {
        reveal(table_ok);
        assert(units@.take(0) =~= nodes@[0].path@);
        assert forall|key: Seq<K::Unit>|
            (#[trigger] walk(nodes@, key) is Some) == (walk(before, key) is Some
                || key.is_prefix_of(units@.take(0))) by {
            if key.is_prefix_of(units@.take(0)) {
                assert(key.len() == 0);
            }
        }
    }
    while i < units.len()
        invariant
            i <= units@.len(),
            table_ok(before),
            table_ok(nodes@),
            current < nodes@.len(),
            nodes@[current as int].path@ == units@.take(i as int),
            walk(nodes@, units@.take(i as int)) == Some(current as int),
            forall|key: Seq<K::Unit>| #[trigger]
                table_term(nodes@, key) == table_term(before, key),
            forall|key: Seq<K::Unit>|
                (#[trigger] walk(nodes@, key) is Some) == (walk(before, key) is Some
                    || key.is_prefix_of(units@.take(i as int))),
        decreases units@.len() - i,
    {
        let ghost here = nodes@;
        current = enter_child(nodes, current, units[i]);
        proof {
            assert(units@.take(i + 1) =~= units@.take(i as int).push(units@[i as int]));
            assert forall|key: Seq<K::Unit>|
                (#[trigger] walk(nodes@, key) is Some) == (walk(before, key) is Some
                    || key.is_prefix_of(units@.take(i + 1))) by {
                assert((walk(here, key) is Some) == (walk(before, key) is Some
                    || key.is_prefix_of(units@.take(i as int))));
                lemma_prefix_step(units@, i as int, key);
            }
        }
        i += 1;
    }
    assert(units@.take(i as int) =~= units@);
    let ghost middle = nodes@;
    nodes[current].is_final = true;
    let ghost had = value;
    match value {
        Some(v) => {
            nodes[current].value = Some(v);
        },
        None => {},
    }
    proof {
        let after = nodes@;
        assert forall|k: int| 0 <= k < middle.len() implies (#[trigger] after[k]).children@
            == middle[k].children@ && after[k].path@ == middle[k].path@ by {}
        assert(blank_unless_final(middle)) by {
            reveal(table_ok);
        }
        lemma_table_same(middle, after);
        assert forall|key: Seq<K::Unit>| #[trigger] table_term(after, key) == (if key == units@ {
            match had {
                Some(v) => Some(Some(v)),
                None => match table_term(before, key) {
                    Some(v) => Some(v),
                    None => Some(None),
                },
            }
        } else {
            table_term(before, key)
        }) by {
            lemma_walk_same(middle, after, key);
            lemma_walk(middle, key);
            assert(table_term(middle, key) == table_term(before, key));
            if key == units@ {
            } else {
                match walk(middle, key) {
                    Some(k) => {
                        assert(k != current);
                        assert(after[k] == middle[k]);
                    },
                    None => {},
                }
            }
        }
        assert forall|key: Seq<K::Unit>|
            (#[trigger] walk(after, key) is Some) == (walk(before, key) is Some
                || key.is_prefix_of(units@)) by {
            lemma_walk_same(middle, after, key);
            assert((walk(middle, key) is Some) == (walk(before, key) is Some || key.is_prefix_of(
                units@.take(i as int),
            )));
        }
    }
}

/// A prefix of one unit more.
proof fn lemma_prefix_step<U>(units: Seq<U>, i: int, key: Seq<U>)
    requires
        0 <= i < units.len(),
    ensures
        key.is_prefix_of(units.take(i + 1)) == (key.is_prefix_of(units.take(i)) || key
            == units.take(i + 1)),
{
    let longer = units.take(i + 1);
    let shorter = units.take(i);
    if key.is_prefix_of(longer) {
        if key.len() == longer.len() {
            assert(longer.take(longer.len() as int) =~= longer);
        } else {
            assert(longer.take(key.len() as int) =~= shorter.take(key.len() as int));
        }
    }
    if key.is_prefix_of(shorter) {
        assert(longer.take(key.len() as int) =~= shorter.take(key.len() as int));
    }
    if key == longer {
        assert(longer.take(longer.len() as int) =~= longer);
    }
}

/// A table whose edges and paths are those of another.
proof fn lemma_table_same<K: KeyEncoding, V>(
    before: Seq<OverlayBuilderNode<K, V>>,
    after: Seq<OverlayBuilderNode<K, V>>,
)
    requires
        table_ok(before),
        before.len() == after.len(),
        forall|i: int|
            0 <= i < before.len() ==> (#[trigger] after[i]).children@ == before[i].children@
                && after[i].path@ == before[i].path@,
        blank_unless_final(after),
    ensures
        table_ok(after),
{
    reveal(table_ok);
    assert forall|i: int| 0 <= i < after.len() implies #[trigger] node_ok(after, i) by {
        assert(node_ok(before, i));
        assert(after[i].children@ == before[i].children@);
        assert forall|s: int| 0 <= s < after[i].children@.len() implies #[trigger] edge_ok(
            after,
            i,
            s,
        ) by {
            assert(edge_ok(before, i, s));
        }
    }
}

/// Nodes without a term have no value.
spec fn blank_unless_final<K: KeyEncoding, V>(nodes: Seq<OverlayBuilderNode<K, V>>) -> bool {
    forall|i: int|
        0 <= i < nodes.len() ==> (#[trigger] nodes[i]).is_final || nodes[i].value is None
}

/// The node that the position `i` of a table of `n` nodes was built into. The last
/// position is built first.
spec fn built_at<K: KeyEncoding, V>(
    built: Seq<Arc<OverlayNode<K, V>>>,
    n: int,
    i: int,
) -> Arc<OverlayNode<K, V>> {
    built[n - 1 - i]
}

/// The number of steps in which a node is made: one for finality, one for a value,
/// one for each child.
pub open spec fn build_steps<U, V>(node: Tree<U, V>, kids: int) -> int {
    (if node.is_final {
        1int
    } else {
        0
    }) + (if node.value is Some {
        1int
    } else {
        0
    }) + kids
}

/// A node that was made from its finality, value and resident children.
pub open spec fn fresh_node<U, V>(node: Tree<U, V>) -> bool {
    &&& node.stamp == 0
    &&& node.kids.dom().finite()
    &&& node.version as int == build_steps(node, node.kids.len() as int)
        % 0x1_0000_0000_0000_0000
    &&& forall|unit: U| #[trigger] node.kids.dom().contains(unit) ==> node.kids[unit] is InMem
}

/// A position of a table and the node it was built into.
spec fn built_ok<K: KeyEncoding, V>(
    nodes: Seq<OverlayBuilderNode<K, V>>,
    built: Seq<Arc<OverlayNode<K, V>>>,
    i: int,
) -> bool {
    let n = nodes.len() as int;
    let node = built_at(built, n, i);
    &&& node.wf()
    &&& node@.is_final == nodes[i].is_final
    &&& node@.value == nodes[i].value
    &&& fresh_node(node@)
    &&& forall|unit: K::Unit| #[trigger]
        kid(node@, unit) == match nodes[i].child(unit) {
            Some(j) => Some(Branch::InMem(built_at(built, n, j)@)),
            None => None,
        }
}

/// Every position from `from` on has been built.
#[verifier::opaque]
spec fn all_built<K: KeyEncoding, V>(
    nodes: Seq<OverlayBuilderNode<K, V>>,
    built: Seq<Arc<OverlayNode<K, V>>>,
    from: int,
) -> bool {
    &&& built.len() == nodes.len() - from
    &&& forall|i: int| from <= i < nodes.len() ==> #[trigger] built_ok(nodes, built, i)
}

/// Walks in the table are paths in the built trie.
proof fn lemma_built<K: KeyEncoding, V>(
    nodes: Seq<OverlayBuilderNode<K, V>>,
    built: Seq<Arc<OverlayNode<K, V>>>,
    path: Seq<K::Unit>,
)
    requires
        table_ok(nodes),
        all_built(nodes, built, 0),
    ensures
        at(built_at(built, nodes.len() as int, 0)@, path) == match walk(nodes, path) {
            Some(i) => Some(built_at(built, nodes.len() as int, i)@),
            None => None,
        },
    decreases path.len(),
{
    let n = nodes.len() as int;
    let root = built_at(built, n, 0)@;
    if path.len() > 0 {
        let above = path.drop_last();
        let unit = path.last();
        lemma_built(nodes, built, above);
        lemma_walk(nodes, above);
        lemma_at_concat(root, above, seq![unit]);
        assert(above + seq![unit] =~= path);
        match walk(nodes, above) {
            Some(p) => {
                let node = built_at(built, n, p)@;
                assert(built_ok(nodes, built, p)) by {
                    reveal(all_built);
                }
                assert(kid(node, unit) == match nodes[p].child(unit) {
                    Some(j) => Some(Branch::InMem(built_at(built, n, j)@)),
                    None => None,
                });
                match nodes[p].child(unit) {
                    Some(j) => {
                        let child = built_at(built, n, j)@;
                        assert(seq![unit].drop_first() =~= Seq::<K::Unit>::empty());
                        assert(at(child, seq![unit].drop_first()) == Some(child));
                        assert(at(node, seq![unit]) == Some(child));
                    },
                    None => {
                        assert(at(node, seq![unit]) is None);
                    },
                }
            },
            None => {},
        }
    }
}

/// Turns a table into overlay nodes, from its end to its begin.
fn convert_builder_to_overlay<K: KeyEncoding, V: DictionaryValue>(
    nodes: &Vec<OverlayBuilderNode<K, V>>,
) -> (r: Arc<OverlayNode<K, V>>)
    requires
        table_ok(nodes@),
    ensures
        r.wf(),
        forall|path: Seq<K::Unit>|
            match #[trigger] at(r@, path) {
                Some(node) => walk(nodes@, path) matches Some(i) && node.is_final
                    == nodes@[i].is_final && node.value == nodes@[i].value && fresh_node(node),
                None => walk(nodes@, path) is None,
            },
{
    let count: usize = nodes.len();
    let ghost n = count as int;
    let mut built: Vec<Arc<OverlayNode<K, V>>> = Vec::with_capacity(count);
    let mut i: usize = count;
    proof {
        reveal(all_built);
        reveal(table_ok);
    }
    while i > 0
        invariant
            count == nodes@.len(),
            n == count,
            i <= count,
            table_ok(nodes@),
            all_built(nodes@, built@, i as int),
        decreases i,
    {
        i -= 1;
        let ghost before = built@;
        proof {
            reveal(table_ok);
            reveal(all_built);
            assert(node_ok(nodes@, i as int));
        }
        let source = &nodes[i];
        let mut node: OverlayNode<K, V> = OverlayNode::new();
        if source.is_final {
            node = node.as_final();
        }
        match duplicate_option(&source.value) {
            Some(value) => {
                node = node.with_value(value);
            },
            None => {},
        }
        let ghost kids = source.children@;
        let mut s: usize = 0;
        proof {
            assert(node@.kids =~= Map::<K::Unit, Branch<K::Unit, V>>::empty());
        }
        while s < source.children.len()
            invariant
                count == nodes@.len(),
                n == count,
                i < count,
                *source == nodes@[i as int],
                kids == source.children@,
                source.sorted(),
                node_ok(nodes@, i as int),
                built@ == before,
                all_built(nodes@, before, i + 1),
                s <= kids.len(),
                node.wf(),
                node@.is_final == source.is_final,
                node@.value == source.value,
                node@.stamp == 0,
                node@.kids.dom().finite(),
                node@.kids.len() == s,
                node@.version as int == build_steps(node@, s as int) % 0x1_0000_0000_0000_0000,
                forall|unit: K::Unit| #[trigger]
                    node@.kids.dom().contains(unit) == (source.slot(unit) matches Some(t) && t < s),
                forall|t: int|
                    0 <= t < s ==> node@.kids[(#[trigger] kids[t]).0] == Branch::InMem(
                        built_at(before, n, kids[t].1 as int)@,
                    ),
            decreases kids.len() - s,
        {
            proof {
                reveal(all_built);
                assert(edge_ok(nodes@, i as int, s as int));
                assert(built_ok(nodes@, before, kids[s as int].1 as int));
                lemma_slot_unique(*source, s as int);
            }
            let edge: K::Unit = source.children[s].0;
            let position: usize = source.children[s].1;
            let child = share(&built[count - 1 - position]);
            let ghost earlier = node@;
            node = node.with_child(edge, Child::InMem(child));
            proof {
                assert forall|unit: K::Unit| #[trigger] node@.kids.dom().contains(unit) == (
                source.slot(unit) matches Some(t) && t < s + 1) by {
                    if unit != edge {
                        match source.slot(unit) {
                            Some(t) => {
                                if t == s {
                                    assert(kids[t].0 == unit);
                                }
                            },
                            None => {},
                        }
                    }
                }
                assert forall|t: int| 0 <= t < s + 1 implies node@.kids[(#[trigger] kids[t]).0]
                    == Branch::InMem(built_at(before, n, kids[t].1 as int)@) by {
                    if t < s {
                        assert(K::rank(kids[t].0) < K::rank(kids[s as int].0));
                    }
                }
            }
            s += 1;
        }
        let ghost tree = node@;
        built.push(Arc::new(node));
        proof {
            reveal(all_built);
            let after = built@;
            assert forall|k: int| i < k < n implies #[trigger] built_at(after, n, k) == built_at(
                before,
                n,
                k,
            ) by {}
            assert(built_at(after, n, i as int)@ == tree);
            assert forall|unit: K::Unit| #[trigger] kid(tree, unit) == match nodes@[i as int].child(
                unit,
            ) {
                Some(j) => Some(Branch::InMem(built_at(after, n, j)@)),
                None => None,
            } by {
                match source.slot(unit) {
                    Some(t) => {
                        assert(kids[t].0 == unit);
                        assert(edge_ok(nodes@, i as int, t));
                        assert(tree.kids.dom().contains(unit));
                        assert(tree.kids[kids[t].0] == Branch::InMem(
                            built_at(before, n, kids[t].1 as int)@,
                        ));
                        assert(built_at(after, n, kids[t].1 as int) == built_at(
                            before,
                            n,
                            kids[t].1 as int,
                        ));
                    },
                    None => {
                        assert(!tree.kids.dom().contains(unit));
                    },
                }
            }
            assert(fresh_node(tree)) by {
                assert forall|unit: K::Unit| #[trigger] tree.kids.dom().contains(unit) implies tree.kids[unit] is InMem by {
                    assert(kid(tree, unit) == match nodes@[i as int].child(unit) {
                        Some(j) => Some(Branch::InMem(built_at(after, n, j)@)),
                        None => None,
                    });
                }
            }
            assert(built_ok(nodes@, after, i as int));
            assert forall|k: int| i <= k < nodes@.len() implies #[trigger] built_ok(
                nodes@,
                after,
                k,
            ) by {
                if k > i {
                    assert(built_ok(nodes@, before, k));
                    assert(node_ok(nodes@, k)) by {
                        reveal(table_ok);
                    }
                    let old_node = built_at(before, n, k);
                    assert forall|unit: K::Unit| #[trigger] kid(old_node@, unit) == match nodes@[k].child(
                        unit,
                    ) {
                        Some(j) => Some(Branch::InMem(built_at(after, n, j)@)),
                        None => None,
                    } by {
                        match nodes@[k].slot(unit) {
                            Some(t) => {
                                assert(edge_ok(nodes@, k, t));
                            },
                            None => {},
                        }
                    }
                }
            }
        }
    }
    proof {
        reveal(table_ok);
        assert(built_ok(nodes@, built@, 0)) by {
            reveal(all_built);
        }
    }
    let root = share(&built[count - 1]);
    proof {
        assert(root == built_at(built@, n, 0));
        assert forall|path: Seq<K::Unit>|
            match #[trigger] at(root@, path) {
                Some(node) => walk(nodes@, path) matches Some(k) && node.is_final
                    == nodes@[k].is_final && node.value == nodes@[k].value && fresh_node(node),
                None => walk(nodes@, path) is None,
            } by {
            lemma_built(nodes@, built@, path);
            lemma_walk(nodes@, path);
            match walk(nodes@, path) {
                Some(k) => {
                    assert(built_ok(nodes@, built@, k)) by {
                        reveal(all_built);
                    }
                },
                None => {},
            }
        }
    }
    root
}

/// The overlay of a list of terms. `empty_term` says whether the empty key is a
/// term, and with which value. A later value for a key replaces an earlier one; a
/// later occurrence without a value keeps it.
pub fn build_overlay_root_from_terms<K: KeyEncoding, V: DictionaryValue>(
    terms: Vec<(Vec<K::Unit>, Option<V>)>,
    empty_term: Option<Option<V>>,
) -> (r: Arc<OverlayNode<K, V>>)
    ensures
        r.wf(),
        forall|key: Seq<K::Unit>| #[trigger]
            term(r@, key) == listed_term(terms@, empty_term, key),
        forall|path: Seq<K::Unit>|
            match #[trigger] at(r@, path) {
                Some(node) => listed_prefix(terms@, path) && fresh_node(node),
                None => !listed_prefix(terms@, path),
            },
{
    let ghost empty = empty_term;
    let mut nodes: Vec<OverlayBuilderNode<K, V>> = Vec::new();
    let mut root: OverlayBuilderNode<K, V> = OverlayBuilderNode::new(Ghost(Seq::empty()));
    match empty_term {
        Some(value) => {
            root.is_final = true;
            root.value = value;
        },
        None => {},
    }
    nodes.push(root);
    proof {
        reveal(table_ok);
        assert(node_ok(nodes@, 0));
        assert forall|key: Seq<K::Unit>| #[trigger] table_term(nodes@, key) == listed_term(
            terms@.take(0),
            empty,
            key,
        ) by {
            lemma_walk(nodes@, key);
            if key.len() > 0 {
                lemma_single(nodes@, key);
            }
        }
        assert forall|key: Seq<K::Unit>|
            (#[trigger] walk(nodes@, key) is Some) == listed_prefix(terms@.take(0), key) by {
            if key.len() > 0 {
                lemma_single(nodes@, key);
            }
        }
    }
    let mut i: usize = 0;
    while i < terms.len()
        invariant
            i <= terms@.len(),
            table_ok(nodes@),
            forall|key: Seq<K::Unit>| #[trigger]
                table_term(nodes@, key) == listed_term(terms@.take(i as int), empty, key),
            forall|key: Seq<K::Unit>|
                (#[trigger] walk(nodes@, key) is Some) == listed_prefix(
                    terms@.take(i as int),
                    key,
                ),
        decreases terms@.len() - i,
    {
        let ghost before = nodes@;
        let entry = &terms[i];
        insert_term(&mut nodes, &entry.0, duplicate_option(&entry.1));
        proof {
            let shorter = terms@.take(i as int);
            let longer = terms@.take(i + 1);
            assert(longer.drop_last() =~= shorter);
            assert(longer.last() == terms@[i as int]);
            assert forall|key: Seq<K::Unit>| #[trigger] table_term(nodes@, key) == listed_term(
                longer,
                empty,
                key,
            ) by {
                assert(table_term(before, key) == listed_term(shorter, empty, key));
            }
            assert forall|key: Seq<K::Unit>|
                (#[trigger] walk(nodes@, key) is Some) == listed_prefix(longer, key) by {
                assert((walk(before, key) is Some) == listed_prefix(shorter, key));
                lemma_listed_prefix(shorter, longer, key);
            }
        }
        i += 1;
    }
    assert(terms@.take(i as int) =~= terms@);
    let r = convert_builder_to_overlay(&nodes);
    proof {
        assert forall|key: Seq<K::Unit>| #[trigger] term(r@, key) == listed_term(
            terms@,
            empty,
            key,
        ) by {
            let reached = at(r@, key);
            assert(table_term(nodes@, key) == listed_term(terms@.take(i as int), empty, key));
        }
        assert forall|path: Seq<K::Unit>|
            match #[trigger] at(r@, path) {
                Some(node) => listed_prefix(terms@, path) && fresh_node(node),
                None => !listed_prefix(terms@, path),
            } by {
            assert((walk(nodes@, path) is Some) == listed_prefix(terms@.take(i as int), path));
        }
    }
    r
}

/// A table of one node has no edges.
proof fn lemma_single<K: KeyEncoding, V>(
    nodes: Seq<OverlayBuilderNode<K, V>>,
    path: Seq<K::Unit>,
)
    requires
        nodes.len() == 1,
        nodes[0].children@.len() == 0,
        path.len() > 0,
    ensures
        walk(nodes, path) is None,
    decreases path.len(),
{
    if path.len() > 1 {
        lemma_single(nodes, path.drop_last());
    } else {
        assert(nodes[0].slot(path.last()) is None);
    }
}

/// One term more.
proof fn lemma_listed_prefix<U, V>(
    shorter: Seq<(Vec<U>, Option<V>)>,
    longer: Seq<(Vec<U>, Option<V>)>,
    key: Seq<U>,
)
    requires
        longer.len() == shorter.len() + 1,
        longer.drop_last() == shorter,
    ensures
        listed_prefix(longer, key) == (listed_prefix(shorter, key) || key.is_prefix_of(
            longer.last().0@,
        )),
{
    let n = shorter.len() as int;
    assert(longer[n] == longer.last());
    if listed_prefix(longer, key) && key.len() > 0 {
        let i = choose|i: int| 0 <= i < longer.len() && key.is_prefix_of((#[trigger] longer[i]).0@);
        if i < n {
            assert(shorter[i] == longer[i]);
        }
    }
    if listed_prefix(shorter, key) && key.len() > 0 {
        let i = choose|i: int| 0 <= i < n && key.is_prefix_of((#[trigger] shorter[i]).0@);
        assert(longer[i] == shorter[i]);
    }
}

} // verus!
