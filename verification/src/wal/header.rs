//! The header of a log file.

use vstd::prelude::*;
use super::codec::{
    get_le, le_bytes, le_value, lemma_le_len, lemma_le_round_trip, lemma_ranges, put_le,
};
use super::{Lsn, WalError};

verus! {

/// The bytes that a header takes.
pub const WAL_HEADER_SIZE: usize = 32;

/// The first word of a log whose records all count.
pub const MAGIC: u64 = 0x3130_4c41_5754_5241;

/// The first word of a log whose records count only if they are ranked.
pub const MAGIC_OVERLAY: u64 = 0x3130_564f_5754_5241;

/// Which records of a log count when it is replayed.
#[derive(Clone, Copy, Debug, PartialEq, Eq, Structural)]
pub enum RankRegime {
    /// All of them.
    Owned,
    /// Those that a commit rank is bound to.
    Overlay,
}

/// The header of a log file.
#[derive(Clone, Copy, Debug, PartialEq, Eq, Structural)]
pub struct WalHeader {
    pub magic: u64,
    pub checkpoint_lsn: Lsn,
    pub commit_seq_floor: u64,
    pub rank_regime: u8,
}

impl RankRegime {
    /// The number that stands for the regime.
    pub open spec fn spec_code(self) -> u8 {
        match self {
            RankRegime::Owned => 0,
            RankRegime::Overlay => 1,
        }
    }

    /// The number that stands for the regime.
    pub fn code(self) -> (r: u8)
        ensures
            r == self.spec_code(),
    {
        match self {
            RankRegime::Owned => 0,
            RankRegime::Overlay => 1,
        }
    }
}

impl WalHeader {
    /// The header of a new log.
    pub open spec fn fresh() -> Self {
        WalHeader { magic: MAGIC, checkpoint_lsn: 0, commit_seq_floor: 0, rank_regime: 0 }
    }

    /// The regime that a header states.
    pub open spec fn spec_regime(self) -> RankRegime {
        if self.rank_regime == 1 {
            RankRegime::Overlay
        } else {
            RankRegime::Owned
        }
    }

    /// The bytes of a header.
    pub open spec fn bytes(self) -> Seq<u8> {
        le_bytes(self.magic as nat, 8) + le_bytes(self.checkpoint_lsn as nat, 8) + le_bytes(
            self.commit_seq_floor as nat,
            8,
        ) + le_bytes(self.rank_regime as nat, 8)
    }

    /// The header of a new log.
    pub fn new() -> (r: Self)
        ensures
            r == WalHeader::fresh(),
    {
        WalHeader { magic: MAGIC, checkpoint_lsn: 0, commit_seq_floor: 0, rank_regime: 0 }
    }

    /// The regime that the header states.
    pub fn regime(&self) -> (r: RankRegime)
        ensures
            r == self.spec_regime(),
    {
        if self.rank_regime == 1 {
            RankRegime::Overlay
        } else {
            RankRegime::Owned
        }
    }

    /// The bytes of the header.
    pub fn to_bytes(&self) -> (r: Vec<u8>)
        ensures
            r@ == self.bytes(),
            r@.len() == WAL_HEADER_SIZE,
    {
        let mut r: Vec<u8> = Vec::with_capacity(WAL_HEADER_SIZE);
        put_le(&mut r, self.magic, 8);
        put_le(&mut r, self.checkpoint_lsn, 8);
        put_le(&mut r, self.commit_seq_floor, 8);
        put_le(&mut r, self.rank_regime as u64, 8);
        proof {
            lemma_le_len(self.magic as nat, 8);
            lemma_le_len(self.checkpoint_lsn as nat, 8);
            lemma_le_len(self.commit_seq_floor as nat, 8);
            lemma_le_len(self.rank_regime as nat, 8);
            assert(r@ =~= self.bytes());
        }
        r
    }

    /// Bytes that begin with a header.
    pub open spec fn starts(bytes: Seq<u8>) -> bool {
        &&& bytes.len() >= WAL_HEADER_SIZE
        &&& le_value(bytes.subrange(0, 8)) == MAGIC || le_value(bytes.subrange(0, 8))
            == MAGIC_OVERLAY
        &&& le_value(bytes.subrange(24, 32)) < 2
    }

    /// The header that bytes begin with.
    pub fn from_bytes(bytes: &[u8]) -> (r: Result<Self, WalError>)
        ensures
            match r {
                Ok(header) => {
                    &&& WalHeader::starts(bytes@)
                    &&& header.magic == le_value(bytes@.subrange(0, 8))
                    &&& header.checkpoint_lsn == le_value(bytes@.subrange(8, 16))
                    &&& header.commit_seq_floor == le_value(bytes@.subrange(16, 24))
                    &&& header.rank_regime == le_value(bytes@.subrange(24, 32))
                },
                Err(e) => !WalHeader::starts(bytes@) && e is CorruptedHeader,
            },
    {
        if bytes.len() < WAL_HEADER_SIZE {
            return Err(WalError::CorruptedHeader);
        }
        let magic: u64 = get_le(bytes, 0, 8);
        let checkpoint_lsn: u64 = get_le(bytes, 8, 8);
        let commit_seq_floor: u64 = get_le(bytes, 16, 8);
        let rank_regime: u64 = get_le(bytes, 24, 8);
        if (magic != MAGIC && magic != MAGIC_OVERLAY) || rank_regime >= 2 {
            return Err(WalError::CorruptedHeader);
        }
        Ok(
            WalHeader {
                magic,
                checkpoint_lsn,
                commit_seq_floor,
                rank_regime: rank_regime as u8,
            },
        )
    }
}

/// A written header reads back.
pub proof fn written_header_reads_back(header: WalHeader, after: Seq<u8>)
    requires
        header.magic == MAGIC || header.magic == MAGIC_OVERLAY,
        header.rank_regime < 2,
    ensures
        ({
            let bytes = header.bytes() + after;
            &&& WalHeader::starts(bytes)
            &&& le_value(bytes.subrange(0, 8)) == header.magic
            &&& le_value(bytes.subrange(8, 16)) == header.checkpoint_lsn
            &&& le_value(bytes.subrange(16, 24)) == header.commit_seq_floor
            &&& le_value(bytes.subrange(24, 32)) == header.rank_regime
        }),
{
    let bytes = header.bytes() + after;
    lemma_ranges();
    lemma_le_round_trip(header.magic as nat, 8);
    lemma_le_round_trip(header.checkpoint_lsn as nat, 8);
    lemma_le_round_trip(header.commit_seq_floor as nat, 8);
    lemma_le_round_trip(header.rank_regime as nat, 8);
    assert(bytes.subrange(0, 8) =~= le_bytes(header.magic as nat, 8));
    assert(bytes.subrange(8, 16) =~= le_bytes(header.checkpoint_lsn as nat, 8));
    assert(bytes.subrange(16, 24) =~= le_bytes(header.commit_seq_floor as nat, 8));
    assert(bytes.subrange(24, 32) =~= le_bytes(header.rank_regime as nat, 8));
}

} // verus!
