//! Chains of single children: how they are peeled off a node, and how they are cut
//! into the chunks that one record can carry.

use std::sync::Arc;
use vstd::prelude::*;
use crate::error::{no_room, reserve_entries, PersistentARTrieError, TrieResult};
use crate::key_encoding::KeyEncoding;
use crate::shared::share;
use crate::value::DictionaryValue;
use super::graph_policy::GraphPolicy;
use super::model::{at, kid};
use super::node::{lemma_child_steps, lemma_slot, Branch, Child, OverlayNode};
use super::serialize_build::OverlaySerializationBuild;
use super::serialize_model::unary_chain;

verus! {

/// The number of chunks of a chain.
pub open spec fn chunk_total(units_len: int, width: int) -> int {
    if units_len % width == 0 {
        units_len / width
    } else {
        units_len / width + 1
    }
}

/// The number of chain units that one record carries: its prefix and one edge.
pub fn chain_chunk_width<K: KeyEncoding>() -> (r: TrieResult<usize>)
    ensures
        match r {
            Ok(width) => width == K::max_prefix_len() + 1,
            Err(e) => K::max_prefix_len() == usize::MAX && e is InternalError,
        },
{
    match K::prefix_limit().checked_add(1) {
        Some(width) => Ok(width),
        None => Err(
            PersistentARTrieError::internal("compressed serializer chain-chunk width overflow"),
        ),
    }
}

/// The number of chunks of a chain.
pub fn chain_chunk_count(units_len: usize, width: usize) -> (r: TrieResult<usize>)
    ensures
        match r {
            Ok(count) => width > 0 && count == chunk_total(units_len as int, width as int),
            Err(e) => width == 0 && e is InternalError,
        },
{
    if width == 0 {
        return Err(
            PersistentARTrieError::internal("compressed serializer chain-chunk width is zero"),
        );
    }
    let whole: usize = units_len / width;
    if units_len % width == 0 {
        Ok(whole)
    } else {
        assert(whole < units_len) by (nonlinear_arith)
            requires
                whole == units_len / width,
                units_len % width != 0,
                width > 1 || width == 1,
                units_len >= 0,
        {
            vstd::arithmetic::div_mod::lemma_fundamental_div_mod(units_len as int, width as int);
        }
        Ok(whole + 1)
    }
}

/// The units `start..end` of one chunk.
pub fn chain_chunk_bounds(units_len: usize, width: usize, chunk_index: usize) -> (r: TrieResult<
    (usize, usize),
>)
    ensures
        match r {
            Ok((start, end)) => {
                &&& chunk_index * width < units_len
                &&& start == chunk_index * width
                &&& end == (if units_len - start < width {
                    units_len as int
                } else {
                    start + width
                })
            },
            Err(e) => chunk_index * width >= units_len && e is InternalError,
        },
{
    let start: usize = match chunk_index.checked_mul(width) {
        Some(start) => start,
        None => {
            return Err(
                PersistentARTrieError::internal(
                    "compressed serializer chain-chunk offset overflow",
                ),
            );
        },
    };
    if start >= units_len {
        return Err(
            PersistentARTrieError::internal(
                "compressed serializer chain-chunk index is out of range",
            ),
        );
    }
    let left: usize = units_len - start;
    let chunk_len: usize = if left < width {
        left
    } else {
        width
    };
    Ok((start, start + chunk_len))
}

/// The chunks of a chain cover it without overlap: a unit lies in the chunk whose
/// index is its position divided by the width, and in no other.
pub proof fn chunks_partition_the_chain(units_len: int, width: int, position: int)
    requires
        0 <= position < units_len,
        width > 0,
    ensures
        0 <= position / width < chunk_total(units_len, width),
        forall|chunk: int|
            0 <= chunk < chunk_total(units_len, width) ==> (#[trigger] (chunk * width)
                <= position < chunk * width + width <==> chunk == position / width),
{
    let home = position / width;
    vstd::arithmetic::div_mod::lemma_fundamental_div_mod(position, width);
    vstd::arithmetic::div_mod::lemma_fundamental_div_mod(units_len, width);
    assert(0 <= home) by (nonlinear_arith)
        requires
            home == position / width,
            position >= 0,
            width > 0,
    ;
    assert(width * home == home * width) by (nonlinear_arith);
    assert forall|chunk: int| 0 <= chunk < chunk_total(units_len, width) implies (
    #[trigger] (chunk * width) <= position < chunk * width + width <==> chunk == home) by {
        if chunk < home {
            assert(chunk * width + width <= home * width) by (nonlinear_arith)
                requires
                    chunk + 1 <= home,
                    width > 0,
            ;
        } else if chunk > home {
            assert(home * width + width <= chunk * width) by (nonlinear_arith)
                requires
                    home + 1 <= chunk,
                    width > 0,
            ;
        }
    }
    let whole = units_len / width;
    assert(width * whole == whole * width) by (nonlinear_arith);
    if home > whole || (home == whole && units_len % width == 0) {
        assert(home * width >= whole * width) by (nonlinear_arith)
            requires
                home >= whole,
                width > 0,
        ;
        if home > whole {
            assert(home * width >= whole * width + width) by (nonlinear_arith)
                requires
                    home >= whole + 1,
                    width > 0,
            ;
        }
    }
}

/// Where the last chunk ends and the others do.
pub proof fn lemma_chunk_index(units_len: int, width: int, chunk: int)
    requires
        width > 0,
        0 <= units_len,
        0 <= chunk <= chunk_total(units_len, width),
    ensures
        chunk < chunk_total(units_len, width) ==> chunk * width < units_len,
        chunk == chunk_total(units_len, width) ==> chunk * width >= units_len,
        chunk * width >= 0,
{
    vstd::arithmetic::div_mod::lemma_fundamental_div_mod(units_len, width);
    let whole = units_len / width;
    assert(width * whole == whole * width) by (nonlinear_arith);
    assert(chunk * width >= 0) by (nonlinear_arith)
        requires
            chunk >= 0,
            width > 0,
    ;
    if chunk < chunk_total(units_len, width) {
        if chunk < whole {
            assert(chunk * width + width <= whole * width) by (nonlinear_arith)
                requires
                    chunk + 1 <= whole,
                    width > 0,
            ;
        }
    } else if units_len % width != 0 {
        assert(chunk * width == whole * width + width) by (nonlinear_arith)
            requires
                chunk == whole + 1,
        ;
    }
}

/// A peeled chain: the edges, the node above each edge, and the node at the end.
pub type PrefixChain<K, V> = (
    Vec<<K as KeyEncoding>::Unit>,
    Vec<Arc<OverlayNode<K, V>>>,
    Arc<OverlayNode<K, V>>,
);

/// A node without finality, value or siblings on its one edge.
pub open spec fn link<K: KeyEncoding, V>(
    node: OverlayNode<K, V>,
    unit: K::Unit,
    child: Arc<OverlayNode<K, V>>,
) -> bool {
    &&& !node.final_flag
    &&& node.value is None
    &&& node.children@.len() == 1
    &&& node.children@[0] == (unit, Child::<K, V>::InMem(child))
}

/// The node at a position of a chain.
pub open spec fn chain_node<K: KeyEncoding, V>(
    live: Seq<Arc<OverlayNode<K, V>>>,
    terminus: Arc<OverlayNode<K, V>>,
    position: int,
) -> Arc<OverlayNode<K, V>> {
    if 0 <= position < live.len() {
        live[position]
    } else {
        terminus
    }
}

/// One edge of a chain.
pub open spec fn chain_link<K: KeyEncoding, V>(
    live: Seq<Arc<OverlayNode<K, V>>>,
    units: Seq<K::Unit>,
    terminus: Arc<OverlayNode<K, V>>,
    position: int,
) -> bool {
    &&& link(
        *chain_node(live, terminus, position),
        units[position],
        chain_node(live, terminus, position + 1),
    )
    &&& chain_node(live, terminus, position).wf()
}

/// A chain of single children.
#[verifier::opaque]
pub open spec fn chain_ok<K: KeyEncoding, V>(
    live: Seq<Arc<OverlayNode<K, V>>>,
    units: Seq<K::Unit>,
    terminus: Arc<OverlayNode<K, V>>,
) -> bool {
    &&& live.len() == units.len()
    &&& terminus.wf()
    &&& forall|j: int| 0 <= j < units.len() ==> #[trigger] chain_link(live, units, terminus, j)
}

/// A chain goes on below a node.
pub open spec fn continues<K: KeyEncoding, V>(
    node: OverlayNode<K, V>,
    stop_before_durable_child: bool,
) -> bool {
    &&& !node.final_flag
    &&& node.value is None
    &&& node.children@.len() == 1
    &&& match node.children@[0].1 {
        Child::InMem(child) => !(stop_before_durable_child && child.stamp != 0),
        Child::OnDisk(_) => false,
    }
}

/// The model of one edge of a chain.
pub proof fn lemma_link_model<K: KeyEncoding, V>(
    node: OverlayNode<K, V>,
    unit: K::Unit,
    child: Arc<OverlayNode<K, V>>,
)
    requires
        link(node, unit, child),
        node.wf(),
    ensures
        node@.kids.dom() == Set::empty().insert(unit),
        node@.kids[unit] == Branch::InMem(child@),
        kid(node@, unit) == Some(Branch::InMem(child@)),
        !node@.is_final,
        node@.value is None,
        child.wf(),
        child.steps() < node.steps(),
{
    lemma_slot(node, 0);
    lemma_child_steps(node, 0);
    assert(node.children@[0].1 == Child::<K, V>::InMem(child));
    assert(node@.kids.dom() =~= Set::empty().insert(unit)) by {
        assert forall|other: K::Unit| node@.kids.dom().contains(other) implies other == unit by {
            let i = choose|i: int|
                0 <= i < node.children@.len() && #[trigger] node.children@[i].0 == other;
            assert(i == 0);
        }
    }
}

/// A part of a chain, in the model.
pub proof fn lemma_chain_part<K: KeyEncoding, V>(
    live: Seq<Arc<OverlayNode<K, V>>>,
    units: Seq<K::Unit>,
    terminus: Arc<OverlayNode<K, V>>,
    start: int,
    end: int,
)
    requires
        chain_ok(live, units, terminus),
        0 <= start <= end <= units.len(),
    ensures
        unary_chain(
            chain_node(live, terminus, start)@,
            units.subrange(start, end),
            chain_node(live, terminus, end)@,
        ),
        chain_node(live, terminus, start).wf(),
        chain_node(live, terminus, end).steps() + (end - start) <= chain_node(
            live,
            terminus,
            start,
        ).steps(),
    decreases end - start,
{
    reveal(chain_ok);
    if start < end {
        assert(chain_link(live, units, terminus, start));
        let node = *chain_node(live, terminus, start);
        let next = chain_node(live, terminus, start + 1);
        lemma_link_model(node, units[start], next);
        lemma_chain_part(live, units, terminus, start + 1, end);
        let part = units.subrange(start, end);
        assert(part[0] == units[start]);
        assert(part.drop_first() =~= units.subrange(start + 1, end));
    } else if start < units.len() {
        assert(chain_link(live, units, terminus, start));
    }
}

/// Peels the chain of single children off a node. The chain ends before a node that
/// the policy wants to keep, at a node that is final, valued or branching, above a
/// durable child, and, if asked for, above a stamped child.
pub fn peel_chain_generic<K: KeyEncoding, V: DictionaryValue, P: GraphPolicy<K, V>>(
    start: Arc<OverlayNode<K, V>>,
    stop_before_durable_child: bool,
    build: &OverlaySerializationBuild<K, V, P>,
) -> (r: TrieResult<PrefixChain<K, V>>)
    requires
        start.wf(),
    ensures
        match r {
            Ok((units, live, terminus)) => {
                &&& chain_ok(live@, units@, terminus)
                &&& chain_node(live@, terminus, 0) == start
                &&& terminus.steps() + units@.len() <= start.steps()
                &&& forall|j: int|
                    0 <= j < live@.len() ==> continues(
                        *(#[trigger] live@[j]),
                        stop_before_durable_child,
                    ) && build.graph.boundary(live@[j], false)
                &&& !continues(*terminus, stop_before_durable_child) || build.graph.boundary(
                    terminus,
                    true,
                )
            },
            Err(e) => no_room(e) || (e is InternalError && start.steps() > usize::MAX),
        },
{
    let mut units: Vec<K::Unit> = Vec::new();
    let mut live: Vec<Arc<OverlayNode<K, V>>> = Vec::new();
    let ghost first = start;
    let mut current = start;
    proof {
        reveal(chain_ok);
    }
    loop
        invariant
            chain_ok(live@, units@, current),
            first == start,
            chain_node(live@, current, 0) == first,
            current.steps() + units@.len() <= first.steps(),
            forall|j: int|
                0 <= j < live@.len() ==> continues(
                    *(#[trigger] live@[j]),
                    stop_before_durable_child,
                ) && build.graph.boundary(live@[j], false),
        decreases current.steps(),
    {
        proof {
            reveal(chain_ok);
        }
        if build.graph.is_compression_boundary(&current) {
            return Ok((units, live, current));
        }
        if current.children.len() != 1 || current.final_flag || current.has_value() {
            return Ok((units, live, current));
        }
        let edge: K::Unit = current.children[0].0;
        let sole: Option<Arc<OverlayNode<K, V>>> = match &current.children[0].1 {
            Child::InMem(child) => Some(share(child)),
            Child::OnDisk(_) => None,
        };
        match sole {
            None => {
                return Ok((units, live, current));
            },
            Some(child) => {
                if stop_before_durable_child && child.durable_stamp() != 0 {
                    return Ok((units, live, current));
                }
                let requested: usize = match units.len().checked_add(1) {
                    Some(requested) => requested,
                    None => {
                        return Err(
                            PersistentARTrieError::internal(
                                "compressed serializer peeled-chain length overflow",
                            ),
                        );
                    },
                };
                match reserve_entries(
                    &mut units,
                    1,
                    "compressed serializer peeled-chain units",
                    requested,
                ) {
                    Ok(()) => {},
                    Err(e) => {
                        return Err(e);
                    },
                }
                match reserve_entries(
                    &mut live,
                    1,
                    "compressed serializer peeled-chain nodes",
                    requested,
                ) {
                    Ok(()) => {},
                    Err(e) => {
                        return Err(e);
                    },
                }
                let ghost above = live@;
                let ghost edges = units@;
                let ghost node = current;
                live.push(share(&current));
                units.push(edge);
                proof {
                    assert(link(*node, edge, child));
                    let content = *node;
                    lemma_link_model(content, edge, child);
                    assert forall|j: int| 0 <= j < units@.len() implies #[trigger] chain_link(
                        live@,
                        units@,
                        child,
                        j,
                    ) by {
                        if j < edges.len() {
                            assert(chain_link(above, edges, node, j));
                            assert(chain_node(live@, child, j) == chain_node(above, node, j));
                            assert(chain_node(live@, child, j + 1) == chain_node(
                                above,
                                node,
                                j + 1,
                            ));
                            assert(units@[j] == edges[j]);
                        }
                    }
                    assert(chain_node(live@, child, 0) == chain_node(above, node, 0));
                    assert forall|j: int| 0 <= j < live@.len() implies continues(
                        *(#[trigger] live@[j]),
                        stop_before_durable_child,
                    ) && build.graph.boundary(live@[j], false) by {
                        if j < above.len() {
                            assert(live@[j] == above[j]);
                        }
                    }
                }
                current = child;
            },
        }
    }
}

} // verus!
