//! Pointers to durable records.

use vstd::prelude::*;

verus! {

/// The record layout that a durable pointer claims.
#[derive(Clone, Copy, Debug, PartialEq, Eq, Structural)]
pub enum NodeType {
    Node4,
    Node16,
    Node48,
    Node256,
    Bucket,
    CharNode4,
    CharNode16,
    CharNode48,
    CharBucket,
    U64Node,
}

/// Where a durable record lies and which layout it claims.
#[derive(Clone, Copy, Debug, PartialEq, Eq, Structural)]
pub struct DiskLocation {
    pub block_id: u32,
    pub offset: u32,
    pub node_type: NodeType,
}

/// One more than the largest block that a pointer can name.
pub const BLOCK_LIMIT: u32 = 0x0800_0000;

/// Bit 63 marks a durable pointer; below it lie the record layout (4 bits), the
/// block (27 bits) and the offset (32 bits).
const DURABLE_BASE: u64 = 0x8000_0000_0000_0000;

const TYPE_UNIT: u64 = 0x0800_0000_0000_0000;

const BLOCK_UNIT: u64 = 0x1_0000_0000;

impl NodeType {
    /// The number that stands for the layout inside a raw pointer.
    pub open spec fn spec_code(self) -> u64 {
        match self {
            NodeType::Node4 => 0,
            NodeType::Node16 => 1,
            NodeType::Node48 => 2,
            NodeType::Node256 => 3,
            NodeType::Bucket => 4,
            NodeType::CharNode4 => 5,
            NodeType::CharNode16 => 6,
            NodeType::CharNode48 => 7,
            NodeType::CharBucket => 8,
            NodeType::U64Node => 9,
        }
    }

    fn code(self) -> (r: u64)
        ensures
            r == self.spec_code(),
            r < 10,
    {
        match self {
            NodeType::Node4 => 0,
            NodeType::Node16 => 1,
            NodeType::Node48 => 2,
            NodeType::Node256 => 3,
            NodeType::Bucket => 4,
            NodeType::CharNode4 => 5,
            NodeType::CharNode16 => 6,
            NodeType::CharNode48 => 7,
            NodeType::CharBucket => 8,
            NodeType::U64Node => 9,
        }
    }

    fn from_code(code: u64) -> (r: Option<NodeType>)
        ensures
            match r {
                Some(t) => t.spec_code() == code,
                None => code >= 10,
            },
    {
        if code == 0 {
            Some(NodeType::Node4)
        } else if code == 1 {
            Some(NodeType::Node16)
        } else if code == 2 {
            Some(NodeType::Node48)
        } else if code == 3 {
            Some(NodeType::Node256)
        } else if code == 4 {
            Some(NodeType::Bucket)
        } else if code == 5 {
            Some(NodeType::CharNode4)
        } else if code == 6 {
            Some(NodeType::CharNode16)
        } else if code == 7 {
            Some(NodeType::CharNode48)
        } else if code == 8 {
            Some(NodeType::CharBucket)
        } else if code == 9 {
            Some(NodeType::U64Node)
        } else {
            None
        }
    }
}

/// A 64-bit pointer to a durable record, or the null pointer.
#[derive(Clone, Copy, Debug, PartialEq, Eq, Structural)]
pub struct SwizzledPtr {
    pub raw: u64,
}

impl SwizzledPtr {
    /// The raw word of a location.
    pub open spec fn encoded(location: DiskLocation) -> int {
        0x8000_0000_0000_0000 + location.node_type.spec_code() * 0x0800_0000_0000_0000
            + location.block_id * 0x1_0000_0000 + location.offset
    }

    /// The location that a pointer names, if it names one.
    pub open spec fn location(self) -> Option<DiskLocation> {
        if exists|l: DiskLocation| l.block_id < BLOCK_LIMIT && #[trigger] Self::encoded(l) == self.raw {
            Some(choose|l: DiskLocation| l.block_id < BLOCK_LIMIT && #[trigger] Self::encoded(l) == self.raw)
        } else {
            None
        }
    }

    /// A pointer to the record at `offset` in block `block_id`.
    pub fn on_disk(block_id: u32, offset: u32, node_type: NodeType) -> (r: Self)
        requires
            block_id < BLOCK_LIMIT,
        ensures
            r.location() == Some(DiskLocation { block_id, offset, node_type }),
            r.raw == Self::encoded(DiskLocation { block_id, offset, node_type }),
            r.raw != 0,
    {
        let code: u64 = node_type.code();
        let raw: u64 = DURABLE_BASE + code * TYPE_UNIT + (block_id as u64) * BLOCK_UNIT + (offset
            as u64);
        let ghost l = DiskLocation { block_id, offset, node_type };
        let r = SwizzledPtr { raw };
        assert(Self::encoded(l) == r.raw);
        proof {
            lemma_location(r, l);
        }
        r
    }

    /// The pointer to nothing.
    pub fn null() -> (r: Self)
        ensures
            r.raw == 0,
            r.location() is None,
    {
        SwizzledPtr { raw: 0 }
    }

    /// Whether this is the pointer to nothing.
    pub fn is_null(&self) -> (r: bool)
        ensures
            r == (self.raw == 0),
    {
        self.raw == 0
    }

    /// The pointer as a word.
    pub fn to_raw(&self) -> (r: u64)
        ensures
            r == self.raw,
    {
        self.raw
    }

    /// The pointer that a word stands for.
    pub fn from_raw(raw: u64) -> (r: Self)
        ensures
            r.raw == raw,
    {
        SwizzledPtr { raw }
    }

    /// The location that this pointer names, if it names one.
    pub fn disk_location(&self) -> (r: Option<DiskLocation>)
        ensures
            r == self.location(),
            r matches Some(l) ==> l.block_id < BLOCK_LIMIT,
    {
        if self.raw < DURABLE_BASE {
            return None;
        }
        let body: u64 = self.raw - DURABLE_BASE;
        let code: u64 = body / TYPE_UNIT;
        let rest: u64 = body % TYPE_UNIT;
        let block_id: u32 = (rest / BLOCK_UNIT) as u32;
        let offset: u32 = (rest % BLOCK_UNIT) as u32;
        match NodeType::from_code(code) {
            Some(node_type) => {
                let l = DiskLocation { block_id, offset, node_type };
                proof {
                    lemma_location(*self, l);
                }
                Some(l)
            },
            None => {
                assert forall|l: DiskLocation| l.block_id < BLOCK_LIMIT implies #[trigger] Self::encoded(
                    l,
                ) != self.raw by {
                    assert(l.node_type.spec_code() < 10);
                }
                None
            },
        }
    }
}

/// A pointer encodes at most one location.
proof fn lemma_location(p: SwizzledPtr, l: DiskLocation)
    requires
        l.block_id < BLOCK_LIMIT,
        SwizzledPtr::encoded(l) == p.raw,
    ensures
        p.location() == Some(l),
{
    let m = p.location()->0;
    assert(m.block_id < BLOCK_LIMIT && SwizzledPtr::encoded(m) == p.raw);
    assert(l.node_type.spec_code() < 10);
    assert(m.node_type.spec_code() < 10);
    assert(l.node_type.spec_code() == m.node_type.spec_code());
    assert(l.block_id == m.block_id);
    assert(l.offset == m.offset);
}

/// A pointer that names a record is not the pointer to nothing.
pub proof fn located_is_not_null(p: SwizzledPtr)
    requires
        p.location() is Some,
    ensures
        p.raw != 0,
{
    let l = p.location()->0;
    assert(l.block_id < BLOCK_LIMIT && SwizzledPtr::encoded(l) == p.raw);
}

/// Two pointers that name one location are one pointer.
pub proof fn locations_are_distinct(p: SwizzledPtr, q: SwizzledPtr)
    requires
        p.location() is Some,
        p.location() == q.location(),
    ensures
        p == q,
{
    let l = p.location()->0;
    assert(l.block_id < BLOCK_LIMIT && SwizzledPtr::encoded(l) == p.raw);
    let m = q.location()->0;
    assert(m.block_id < BLOCK_LIMIT && SwizzledPtr::encoded(m) == q.raw);
}

} // verus!
