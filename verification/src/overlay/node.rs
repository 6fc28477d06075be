//! The immutable overlay node and its mathematical model.

use std::sync::Arc;
use vstd::prelude::*;
use crate::error::{PersistentARTrieError, TrieResult};
use crate::key_encoding::KeyEncoding;
use crate::shared::{share, unshare};
use crate::swizzled_ptr::SwizzledPtr;
use crate::value::{duplicate_option, DictionaryValue};

verus! {

/// A child slot: a resident node, or a pointer to its durable record.
pub enum Child<K: KeyEncoding, V> {
    InMem(Arc<OverlayNode<K, V>>),
    OnDisk(SwizzledPtr),
}

/// An immutable trie node. Every modification makes a copy.
///
/// `children` is sorted by edge. `durable_stamp` is the raw pointer of the record
/// that this node was last written as, or zero when the node has changed since.
pub struct OverlayNode<K: KeyEncoding, V> {
    pub children: Vec<(K::Unit, Child<K, V>)>,
    pub final_flag: bool,
    pub value: Option<V>,
    pub version: u64,
    pub stamp: u64,
}

/// The model of a child slot.
#[verifier::ext_equal]
#[verifier::reject_recursive_types(U)]
#[verifier::reject_recursive_types(V)]
pub enum Branch<U, V> {
    InMem(Tree<U, V>),
    OnDisk(SwizzledPtr),
}

/// The model of a node: a finite map from edges to branches, with the node's own
/// finality, value, version and durable stamp.
#[verifier::ext_equal]
#[verifier::reject_recursive_types(U)]
#[verifier::reject_recursive_types(V)]
pub struct Tree<U, V> {
    pub kids: Map<U, Branch<U, V>>,
    pub is_final: bool,
    pub value: Option<V>,
    pub version: u64,
    pub stamp: u64,
}

/// Whether an edge occurs in a child list.
pub open spec fn has_unit<K: KeyEncoding, V>(kids: Seq<(K::Unit, Child<K, V>)>, unit: K::Unit) -> bool {
    exists|i: int| 0 <= i < kids.len() && #[trigger] kids[i].0 == unit
}

/// The slot of an edge in a child list.
pub open spec fn unit_slot<K: KeyEncoding, V>(kids: Seq<(K::Unit, Child<K, V>)>, unit: K::Unit) -> int {
    choose|i: int| 0 <= i < kids.len() && #[trigger] kids[i].0 == unit
}

/// Edges strictly increase.
pub open spec fn sorted_units<K: KeyEncoding, V>(kids: Seq<(K::Unit, Child<K, V>)>) -> bool {
    forall|i: int, j: int|
        0 <= i < j < kids.len() ==> K::rank(#[trigger] kids[i].0) < K::rank(#[trigger] kids[j].0)
}

impl<K: KeyEncoding, V> Child<K, V> {
    /// The model of this slot.
    pub open spec fn branch(self) -> Branch<K::Unit, V>
        decreases self,
    {
        match self {
            Child::InMem(node) => Branch::InMem(node.tree()),
            Child::OnDisk(ptr) => Branch::OnDisk(ptr),
        }
    }

    /// The resident node, if there is one.
    pub fn as_in_mem(&self) -> (r: Option<&Arc<OverlayNode<K, V>>>)
        ensures
            match *self {
                Child::InMem(node) => r == Some(&node),
                Child::OnDisk(_) => r is None,
            },
    {
        match self {
            Child::InMem(node) => Some(node),
            Child::OnDisk(_) => None,
        }
    }

    /// The durable pointer, if the child is not resident.
    pub fn as_on_disk(&self) -> (r: Option<&SwizzledPtr>)
        ensures
            match *self {
                Child::InMem(_) => r is None,
                Child::OnDisk(ptr) => r == Some(&ptr),
            },
    {
        match self {
            Child::InMem(_) => None,
            Child::OnDisk(ptr) => Some(ptr),
        }
    }

    /// Another handle to the same child.
    pub fn alias(&self) -> (r: Self)
        ensures
            r == *self,
    {
        match self {
            Child::InMem(node) => Child::InMem(share(node)),
            Child::OnDisk(ptr) => Child::OnDisk(*ptr),
        }
    }
}

impl<K: KeyEncoding, V> OverlayNode<K, V> {
    /// The model of this node.
    pub open spec fn tree(self) -> Tree<K::Unit, V>
        decreases self,
    {
        Tree {
            kids: Map::new(
                |unit: K::Unit| has_unit(self.children@, unit),
                |unit: K::Unit|
                    {
                        let slot = unit_slot(self.children@, unit);
                        if 0 <= slot < self.children@.len() {
                            self.children@[slot].1.branch()
                        } else {
                            Branch::OnDisk(SwizzledPtr { raw: 0 })
                        }
                    },
            ),
            is_final: self.final_flag,
            value: self.value,
            version: self.version,
            stamp: self.stamp,
        }
    }

    /// The edges of this node and of every resident descendant are sorted.
    pub open spec fn wf(self) -> bool
        decreases self,
    {
        &&& sorted_units(self.children@)
        &&& forall|i: int|
            0 <= i < self.children@.len() ==> match #[trigger] self.children@[i].1 {
                Child::InMem(node) => node.wf(),
                Child::OnDisk(_) => true,
            }
    }
}

impl<K: KeyEncoding, V> View for OverlayNode<K, V> {
    type V = Tree<K::Unit, V>;

    open spec fn view(&self) -> Tree<K::Unit, V> {
        self.tree()
    }
}

impl<U, V> Tree<U, V> {
    /// The node without children, finality or value.
    pub open spec fn empty() -> Self {
        Tree { kids: Map::empty(), is_final: false, value: None, version: 0, stamp: 0 }
    }

    /// A modified copy: the version advances and the durable stamp is dropped.
    pub open spec fn touched(self, steps: int) -> Self {
        Tree { version: ((self.version + steps) % 0x1_0000_0000_0000_0000) as u64, stamp: 0, ..self }
    }

    /// The copy in which `unit` leads to `branch`.
    pub open spec fn put(self, unit: U, branch: Branch<U, V>) -> Self {
        Tree { kids: self.kids.insert(unit, branch), ..self.touched(1) }
    }

    /// The copy with the given finality.
    pub open spec fn finality(self, is_final: bool) -> Self {
        Tree { is_final, ..self.touched(1) }
    }

    /// The copy that holds `value`.
    pub open spec fn valued(self, value: V) -> Self {
        Tree { value: Some(value), ..self.touched(1) }
    }
}

impl<K: KeyEncoding, V: DictionaryValue> OverlayNode<K, V> {
    /// A node without children, finality or value.
    pub fn new() -> (r: Self)
        ensures
            r.wf(),
            r@ == Tree::<K::Unit, V>::empty(),
    {
        let r = OverlayNode {
            children: Vec::new(),
            final_flag: false,
            value: None,
            version: 0,
            stamp: 0,
        };
        assert(r@.kids =~= Map::<K::Unit, Branch<K::Unit, V>>::empty());
        r
    }

    /// Whether the path to this node is a stored term.
    pub fn is_final(&self) -> (r: bool)
        ensures
            r == self@.is_final,
    {
        self.final_flag
    }

    /// Whether the node holds a value.
    pub fn has_value(&self) -> (r: bool)
        ensures
            r == (self@.value is Some),
    {
        match &self.value {
            Some(_) => true,
            None => false,
        }
    }

    /// A copy of the value.
    pub fn get_value(&self) -> (r: Option<V>)
        ensures
            r == self@.value,
    {
        duplicate_option(&self.value)
    }

    /// The number of modifications that led to this node, modulo 2^64.
    pub fn version(&self) -> (r: u64)
        ensures
            r == self@.version,
    {
        self.version
    }

    /// The raw pointer of the record that this node was written as, or zero.
    pub fn durable_stamp(&self) -> (r: u64)
        ensures
            r == self@.stamp,
    {
        self.stamp
    }

    /// The number of child slots.
    pub fn num_children(&self) -> (r: usize)
        requires
            self.wf(),
        ensures
            r == self.children@.len(),
            r == self@.kids.len(),
            self@.kids.dom().finite(),
    {
        proof {
            lemma_kid_count(*self);
        }
        self.children.len()
    }

    /// The child slot at a position of the edge order.
    pub fn child_at(&self, index: usize) -> (r: Option<(K::Unit, &Child<K, V>)>)
        ensures
            match r {
                Some((unit, child)) => index < self.children@.len() && (unit, *child)
                    == self.children@[index as int],
                None => index >= self.children@.len(),
            },
    {
        if index < self.children.len() {
            let slot = &self.children[index];
            Some((slot.0, &slot.1))
        } else {
            None
        }
    }

    /// The first slot whose edge is not below `unit`.
    fn lower_bound(&self, unit: K::Unit) -> (r: usize)
        requires
            sorted_units(self.children@),
        ensures
            r <= self.children@.len(),
            forall|i: int| 0 <= i < r ==> K::rank(#[trigger] self.children@[i].0) < K::rank(unit),
            forall|i: int|
                r <= i < self.children@.len() ==> K::rank(#[trigger] self.children@[i].0) >= K::rank(
                    unit,
                ),
    {
        let target: u64 = K::unit_rank(unit);
        let mut low: usize = 0;
        let mut high: usize = self.children.len();
        while low < high
            invariant
                low <= high <= self.children@.len(),
                target == K::rank(unit),
                sorted_units(self.children@),
                forall|i: int| 0 <= i < low ==> K::rank(#[trigger] self.children@[i].0) < target,
                forall|i: int|
                    high <= i < self.children@.len() ==> K::rank(#[trigger] self.children@[i].0)
                        >= target,
            decreases high - low,
        {
            let middle: usize = low + (high - low) / 2;
            let probe: u64 = K::unit_rank(self.children[middle].0);
            if probe < target {
                low = middle + 1;
            } else {
                high = middle;
            }
        }
        low
    }

    /// The child slot that `unit` leads to.
    pub fn find_child(&self, unit: K::Unit) -> (r: Option<&Child<K, V>>)
        requires
            self.wf(),
        ensures
            match r {
                Some(child) => {
                    &&& self@.kids.dom().contains(unit)
                    &&& self@.kids[unit] == child.branch()
                    &&& (child matches Child::InMem(node) ==> node.wf())
                },
                None => !self@.kids.dom().contains(unit),
            },
    {
        let slot: usize = self.lower_bound(unit);
        if slot < self.children.len() {
            let entry = &self.children[slot];
            if K::unit_rank(entry.0) == K::unit_rank(unit) {
                proof {
                    K::rank_injective(entry.0, unit);
                    lemma_slot(*self, slot as int);
                }
                return Some(&entry.1);
            }
        }
        None
    }

    /// A copy of the child slots.
    fn children_copy(&self) -> (r: Vec<(K::Unit, Child<K, V>)>)
        ensures
            r@ == self.children@,
    {
        let mut r: Vec<(K::Unit, Child<K, V>)> = Vec::with_capacity(self.children.len());
        let mut i: usize = 0;
        while i < self.children.len()
            invariant
                i <= self.children@.len(),
                r@ == self.children@.take(i as int),
            decreases self.children@.len() - i,
        {
            let entry = &self.children[i];
            r.push((entry.0, entry.1.alias()));
            i += 1;
            assert(self.children@.take(i as int) =~= self.children@.take(i - 1).push(
                self.children@[i - 1],
            ));
        }
        assert(r@ =~= self.children@);
        r
    }

    /// The copy in which `unit` leads to `child`.
    pub fn with_child(&self, unit: K::Unit, child: Child<K, V>) -> (r: Self)
        requires
            self.wf(),
            child matches Child::InMem(node) ==> node.wf(),
        ensures
            r.wf(),
            r@ == self@.put(unit, child.branch()),
    {
        let slot: usize = self.lower_bound(unit);
        let mut children = self.children_copy();
        let ghost before = self.children@;
        let replace: bool = slot < children.len() && K::unit_rank(children[slot].0)
            == K::unit_rank(unit);
        let ghost branch = child.branch();
        if replace {
            proof {
                K::rank_injective(before[slot as int].0, unit);
            }
            children.set(slot, (unit, child));
        } else {
            children.insert(slot, (unit, child));
        }
        let r = OverlayNode {
            children,
            final_flag: self.final_flag,
            value: duplicate_option(&self.value),
            version: self.version.wrapping_add(1),
            stamp: 0,
        };
        proof {
            if replace {
                lemma_put_over(*self, r, slot as int, unit, child);
            } else {
                lemma_put_between(*self, r, slot as int, unit, child);
            }
        }
        r
    }

    /// A copy that keeps the children.
    fn copy_with(&self, final_flag: bool, value: Option<V>, version: u64, stamp: u64) -> (r: Self)
        ensures
            self.wf() ==> r.wf(),
            r@ == (Tree { is_final: final_flag, value, version, stamp, ..self@ }),
    {
        let r = OverlayNode { children: self.children_copy(), final_flag, value, version, stamp };
        assert(r@.kids =~= self@.kids);
        r
    }

    /// The copy that is a stored term.
    pub fn as_final(&self) -> (r: Self)
        ensures
            self.wf() ==> r.wf(),
            r@ == self@.finality(true),
    {
        self.copy_with(true, duplicate_option(&self.value), self.version.wrapping_add(1), 0)
    }

    /// The copy that is no stored term.
    pub fn as_non_final(&self) -> (r: Self)
        ensures
            self.wf() ==> r.wf(),
            r@ == self@.finality(false),
    {
        self.copy_with(false, duplicate_option(&self.value), self.version.wrapping_add(1), 0)
    }

    /// The copy that holds `value`.
    pub fn with_value(&self, value: V) -> (r: Self)
        ensures
            self.wf() ==> r.wf(),
            r@ == self@.valued(value),
    {
        self.copy_with(self.final_flag, Some(value), self.version.wrapping_add(1), 0)
    }

    /// The copy that remembers the record it was written as. Nothing else changes.
    pub fn with_durable_stamp(&self, raw: u64) -> (r: Self)
        ensures
            self.wf() ==> r.wf(),
            r@ == (Tree { stamp: raw, ..self@ }),
    {
        self.copy_with(self.final_flag, duplicate_option(&self.value), self.version, raw)
    }
}

impl<K: KeyEncoding, V> OverlayNode<K, V> {
    /// The number of resident nodes in the tree unfolding of this node.
    pub open spec fn weight(self) -> nat
        decreases self, self.children@.len() + 1,
    {
        1 + self.kids_weight(self.children@.len())
    }

    /// The number of resident nodes below the first `n` child slots.
    pub open spec fn kids_weight(self, n: nat) -> nat
        decreases self, n,
    {
        if n == 0 || n > self.children@.len() {
            0
        } else {
            self.kids_weight((n - 1) as nat) + match self.children@[n - 1].1 {
                Child::InMem(node) => node.weight(),
                Child::OnDisk(_) => 0,
            }
        }
    }
}

impl<K: KeyEncoding, V> OverlayNode<K, V> {
    /// The number of steps that a walk over the tree unfolding of this node takes:
    /// one in and one out for each resident node, one for each durable child.
    pub open spec fn steps(self) -> nat
        decreases self, self.children@.len() + 1,
    {
        2 + self.kids_steps(self.children@.len())
    }

    /// The number of steps that the first `n` child slots take.
    pub open spec fn kids_steps(self, n: nat) -> nat
        decreases self, n,
    {
        if n == 0 || n > self.children@.len() {
            0
        } else {
            self.kids_steps((n - 1) as nat) + match self.children@[n - 1].1 {
                Child::InMem(node) => node.steps(),
                Child::OnDisk(_) => 1,
            }
        }
    }
}

/// More slots take more steps.
pub proof fn lemma_kids_steps_monotone<K: KeyEncoding, V>(node: OverlayNode<K, V>, a: nat, b: nat)
    requires
        a <= b <= node.children@.len(),
    ensures
        node.kids_steps(a) <= node.kids_steps(b),
    decreases b,
{
    if a < b {
        lemma_kids_steps_monotone(node, a, (b - 1) as nat);
    }
}

/// A child takes fewer steps than its parent.
pub proof fn lemma_child_steps<K: KeyEncoding, V>(node: OverlayNode<K, V>, slot: int)
    requires
        0 <= slot < node.children@.len(),
        node.children@[slot].1 is InMem,
    ensures
        node.children@[slot].1->InMem_0.steps() + 2 <= node.steps(),
{
    lemma_kids_steps_monotone(node, (slot + 1) as nat, node.children@.len());
    assert(node.kids_steps((slot + 1) as nat) == node.kids_steps(slot as nat)
        + node.children@[slot].1->InMem_0.steps());
}

/// The number of resident nodes in a work list.
pub open spec fn pending_weight<K: KeyEncoding, V>(pending: Seq<Arc<OverlayNode<K, V>>>) -> nat
    decreases pending.len(),
{
    if pending.len() == 0 {
        0
    } else {
        pending_weight(pending.drop_last()) + pending.last().weight()
    }
}

/// Releases a tree without native recursion, whatever its depth. Subtrees that
/// are still shared stay alive.
pub fn release_tree<K: KeyEncoding, V>(root: Arc<OverlayNode<K, V>>) {
    let mut pending: Vec<Arc<OverlayNode<K, V>>> = Vec::new();
    pending.push(root);
    while pending.len() > 0
        decreases pending_weight(pending@),
    {
        let ghost start = pending@;
        match pending.pop() {
            Some(handle) => {
                let ghost rest = pending@;
                assert(rest =~= start.drop_last());
                match unshare(handle) {
                    Some(node) => {
                        let mut children = node.children;
                        let ghost all = children@;
                        assert(node.kids_weight(all.len()) + 1 == node.weight());
                        while children.len() > 0
                            invariant
                                children@.len() <= all.len(),
                                children@ == all.take(children@.len() as int),
                                all == node.children@,
                                pending_weight(pending@) + node.kids_weight(children@.len()) == pending_weight(
                                    rest,
                                ) + node.kids_weight(all.len()),
                            decreases children@.len(),
                        {
                            let ghost n = children@.len();
                            let ghost held = pending@;
                            assert(children@.last() == all[n - 1]);
                            match children.pop() {
                                Some((_, Child::InMem(child))) => {
                                    pending.push(child);
                                    assert(pending@.drop_last() =~= held);
                                },
                                _ => {},
                            }
                            assert(children@ =~= all.take(n - 1));
                        }
                    },
                    None => {},
                }
            },
            None => {},
        }
    }
}

/// The edge map after a list of replacements, applied in order.
pub open spec fn put_all<U, V>(kids: Map<U, Branch<U, V>>, replacements: Seq<(U, Branch<U, V>)>) -> Map<
    U,
    Branch<U, V>,
>
    decreases replacements.len(),
{
    if replacements.len() == 0 {
        kids
    } else {
        put_all(kids, replacements.drop_last()).insert(replacements.last().0, replacements.last().1)
    }
}

/// The model of a replacement list.
pub open spec fn branches<K: KeyEncoding, V>(replacements: Seq<(K::Unit, Child<K, V>)>) -> Seq<
    (K::Unit, Branch<K::Unit, V>),
> {
    Seq::new(replacements.len(), |i: int| (replacements[i].0, replacements[i].1.branch()))
}

impl<U, V> Tree<U, V> {
    /// The copy with a batch of replaced branches, which counts as `steps`
    /// modifications.
    pub open spec fn replaced(self, replacements: Seq<(U, Branch<U, V>)>, steps: int) -> Self {
        Tree { kids: put_all(self.kids, replacements), ..self.touched(steps) }
    }
}

impl<K: KeyEncoding, V: DictionaryValue> OverlayNode<K, V> {
    /// The copy in which every listed edge leads to its new child. Each edge must
    /// already have a slot.
    pub fn try_with_child_replacements(
        &self,
        replacements: Vec<(K::Unit, Child<K, V>)>,
        steps: usize,
    ) -> (r: TrieResult<Self>)
        requires
            self.wf(),
            forall|i: int|
                0 <= i < replacements@.len() ==> match #[trigger] replacements@[i].1 {
                    Child::InMem(node) => node.wf(),
                    Child::OnDisk(_) => true,
                },
        ensures
            match r {
                Ok(node) => {
                    &&& node.wf()
                    &&& node@ == self@.replaced(branches(replacements@), steps as int)
                    &&& forall|i: int|
                        0 <= i < replacements@.len() ==> self@.kids.dom().contains(
                            (#[trigger] replacements@[i]).0,
                        )
                },
                Err(e) => {
                    &&& e is InternalError
                    &&& exists|i: int|
                        0 <= i < replacements@.len() && !self@.kids.dom().contains(
                            (#[trigger] replacements@[i]).0,
                        )
                },
            },
    {
        let mut node = OverlayNode {
            children: self.children_copy(),
            final_flag: self.final_flag,
            value: duplicate_option(&self.value),
            version: self.version.wrapping_add(steps as u64),
            stamp: 0,
        };
        assert(node@.kids =~= self@.kids);
        let ghost wanted = branches(replacements@);
        assert(wanted.take(0) =~= Seq::empty());
        let mut i: usize = 0;
        while i < replacements.len()
            invariant
                i <= replacements@.len(),
                self.wf(),
                node.wf(),
                wanted == branches(replacements@),
                node@ == self@.replaced(wanted.take(i as int), steps as int),
                node@.kids.dom() == self@.kids.dom(),
                forall|k: int|
                    0 <= k < replacements@.len() ==> match #[trigger] replacements@[k].1 {
                        Child::InMem(node) => node.wf(),
                        Child::OnDisk(_) => true,
                    },
                forall|k: int|
                    0 <= k < i ==> self@.kids.dom().contains((#[trigger] replacements@[k]).0),
            decreases replacements@.len() - i,
        {
            let entry = &replacements[i];
            let ghost child = replacements@[i as int].1;
            let slot: usize = node.lower_bound(entry.0);
            let found: bool = slot < node.children.len() && K::unit_rank(node.children[slot].0)
                == K::unit_rank(entry.0);
            if !found {
                proof {
                    if has_unit(node.children@, entry.0) {
                        let s = unit_slot(node.children@, entry.0);
                        assert(node.children@[s].0 == entry.0);
                    }
                    assert(!node@.kids.dom().contains(replacements@[i as int].0));
                }
                return Err(
                    PersistentARTrieError::internal(
                        "overlay child replacement names an edge without a slot",
                    ),
                );
            }
            proof {
                K::rank_injective(node.children@[slot as int].0, entry.0);
                lemma_slot(node, slot as int);
            }
            let ghost before = node;
            node.children.set(slot, (entry.0, entry.1.alias()));
            proof {
                lemma_put_over(before, node, slot as int, entry.0, child);
                assert(node@.kids.dom() =~= self@.kids.dom());
                let done = wanted.take(i + 1);
                assert(done.drop_last() =~= wanted.take(i as int));
                assert(node@ =~= self@.replaced(done, steps as int));
            }
            i += 1;
        }
        assert(wanted.take(i as int) =~= wanted);
        Ok(node)
    }
}

/// A node has as many edges as child slots.
pub proof fn lemma_kid_count<K: KeyEncoding, V>(node: OverlayNode<K, V>)
    requires
        sorted_units(node.children@),
    ensures
        node@.kids.dom().finite(),
        node@.kids.len() == node.children@.len(),
{
    let units = Seq::new(node.children@.len(), |i: int| node.children@[i].0);
    assert(units.no_duplicates()) by {
        assert forall|i: int, j: int| 0 <= i < units.len() && 0 <= j < units.len() && i != j implies units[i]
            != units[j] by {
            if i < j {
                assert(K::rank(node.children@[i].0) < K::rank(node.children@[j].0));
            } else {
                assert(K::rank(node.children@[j].0) < K::rank(node.children@[i].0));
            }
        }
    }
    units.unique_seq_to_set();
    assert(units.to_set() =~= node@.kids.dom()) by {
        assert forall|u: K::Unit| units.to_set().contains(u) == #[trigger] node@.kids.dom().contains(u) by {
            if has_unit(node.children@, u) {
                let i = unit_slot(node.children@, u);
                assert(units[i] == u);
            }
            if units.contains(u) {
                let i = choose|i: int| 0 <= i < units.len() && units[i] == u;
                assert(node.children@[i].0 == u);
            }
        }
    }
}

/// Replacing a slot is inserting into the edge map.
proof fn lemma_put_over<K: KeyEncoding, V>(
    a: OverlayNode<K, V>,
    b: OverlayNode<K, V>,
    slot: int,
    unit: K::Unit,
    child: Child<K, V>,
)
    requires
        a.wf(),
        child matches Child::InMem(node) ==> node.wf(),
        0 <= slot < a.children@.len(),
        a.children@[slot].0 == unit,
        b.children@ == a.children@.update(slot, (unit, child)),
    ensures
        b.wf(),
        b@.kids == a@.kids.insert(unit, child.branch()),
{
    let before = a.children@;
    let after = b.children@;
    assert forall|i: int| 0 <= i < after.len() implies (#[trigger] after[i]).0 == before[i].0 by {}
    assert(sorted_units(after)) by {
        assert forall|i: int, j: int| 0 <= i < j < after.len() implies K::rank(#[trigger] after[i].0)
            < K::rank(#[trigger] after[j].0) by {
            assert(K::rank(before[i].0) < K::rank(before[j].0));
        }
    }
    assert forall|i: int| 0 <= i < after.len() implies match #[trigger] after[i].1 {
        Child::InMem(node) => node.wf(),
        Child::OnDisk(_) => true,
    } by {
        if i != slot {
            assert(before[i].1 == after[i].1);
        }
    }
    assert forall|u: K::Unit| has_unit(after, u) == has_unit(before, u) by {
        if has_unit(after, u) {
            assert(before[unit_slot(after, u)].0 == u);
        }
        if has_unit(before, u) {
            assert(after[unit_slot(before, u)].0 == u);
        }
    }
    assert(has_unit(before, unit));
    assert forall|u: K::Unit| #[trigger] b@.kids.dom().contains(u) implies b@.kids[u] == a@.kids.insert(
        unit,
        child.branch(),
    )[u] by {
        let i = unit_slot(after, u);
        assert(after[i].0 == u);
        lemma_slot(b, i);
        lemma_slot(a, i);
        if u == unit {
            lemma_slot(b, slot);
        }
    }
    assert(b@.kids =~= a@.kids.insert(unit, child.branch()));
}

/// Inserting a slot at its place in the order is inserting into the edge map.
proof fn lemma_put_between<K: KeyEncoding, V>(
    a: OverlayNode<K, V>,
    b: OverlayNode<K, V>,
    slot: int,
    unit: K::Unit,
    child: Child<K, V>,
)
    requires
        a.wf(),
        child matches Child::InMem(node) ==> node.wf(),
        0 <= slot <= a.children@.len(),
        forall|i: int| 0 <= i < slot ==> K::rank(#[trigger] a.children@[i].0) < K::rank(unit),
        forall|i: int|
            slot <= i < a.children@.len() ==> K::rank(#[trigger] a.children@[i].0) > K::rank(unit),
        b.children@ == a.children@.insert(slot, (unit, child)),
    ensures
        b.wf(),
        b@.kids == a@.kids.insert(unit, child.branch()),
{
    let before = a.children@;
    let after = b.children@;
    assert forall|i: int| 0 <= i < after.len() implies #[trigger] after[i] == (if i < slot {
        before[i]
    } else if i == slot {
        (unit, child)
    } else {
        before[i - 1]
    }) by {}
    assert(sorted_units(after)) by {
        assert forall|i: int, j: int| 0 <= i < j < after.len() implies K::rank(#[trigger] after[i].0)
            < K::rank(#[trigger] after[j].0) by {
            let p = if i < slot { i } else { i - 1 };
            let q = if j < slot { j } else { j - 1 };
            if i != slot {
                assert(after[i].0 == before[p].0);
            }
            if j != slot {
                assert(after[j].0 == before[q].0);
            }
        }
    }
    assert forall|i: int| 0 <= i < after.len() implies match #[trigger] after[i].1 {
        Child::InMem(node) => node.wf(),
        Child::OnDisk(_) => true,
    } by {
        if i < slot {
            assert(before[i].1 == after[i].1);
        } else if i > slot {
            assert(before[i - 1].1 == after[i].1);
        }
    }
    assert(after[slot].0 == unit);
    assert forall|u: K::Unit| has_unit(after, u) == (u == unit || has_unit(before, u)) by {
        if has_unit(after, u) && u != unit {
            let i = unit_slot(after, u);
            assert(after[i].0 == u);
            if i < slot {
                assert(before[i].0 == u);
            } else {
                assert(before[i - 1].0 == u);
            }
        }
        if has_unit(before, u) {
            let i = unit_slot(before, u);
            assert(before[i].0 == u);
            if i < slot {
                assert(after[i].0 == u);
            } else {
                assert(after[i + 1].0 == u);
            }
        }
    }
    assert forall|u: K::Unit| #[trigger] b@.kids.dom().contains(u) implies b@.kids[u] == a@.kids.insert(
        unit,
        child.branch(),
    )[u] by {
        let i = unit_slot(after, u);
        assert(after[i].0 == u);
        lemma_slot(b, i);
        if u == unit {
            lemma_slot(b, slot);
        } else if i < slot {
            lemma_slot(a, i);
        } else {
            lemma_slot(a, i - 1);
        }
    }
    assert(b@.kids =~= a@.kids.insert(unit, child.branch()));
}

/// In a sorted child list an edge determines its slot.
pub proof fn lemma_slot<K: KeyEncoding, V>(node: OverlayNode<K, V>, slot: int)
    requires
        sorted_units(node.children@),
        0 <= slot < node.children@.len(),
    ensures
        node@.kids.dom().contains(node.children@[slot].0),
        unit_slot(node.children@, node.children@[slot].0) == slot,
        node@.kids[node.children@[slot].0] == node.children@[slot].1.branch(),
{
    let unit = node.children@[slot].0;
    assert(has_unit(node.children@, unit));
    let other = unit_slot(node.children@, unit);
    assert(0 <= other < node.children@.len() && node.children@[other].0 == unit);
    if other < slot {
        assert(K::rank(node.children@[other].0) < K::rank(node.children@[slot].0));
    } else if slot < other {
        assert(K::rank(node.children@[slot].0) < K::rank(node.children@[other].0));
    }
}

} // verus!
