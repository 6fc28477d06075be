//! Errors of the trie and of its write-ahead log.

use vstd::prelude::*;

verus! {

/// Why a collection could not grow.
#[derive(Debug)]
pub enum CollectionAllocationError {
    /// The requested capacity is not permitted.
    CapacityOverflow,
    /// The collection says why it could not grow.
    TryReserve(std::collections::TryReserveError),
    /// The short list says why it could not grow.
    Inline(smallvec::CollectionAllocErr),
}

/// `smallvec::CollectionAllocErr`: why a short list could not grow.
#[verifier::external_type_specification]
#[verifier::external_body]
pub struct ExCollectionAllocErr(smallvec::CollectionAllocErr);

/// An error of the persistent trie.
#[derive(Debug)]
pub enum PersistentARTrieError {
    /// An internal invariant does not hold.
    InternalError { message: String },
    /// Durable data is malformed.
    CorruptedFile { reason: String },
    /// A collection could not grow.
    AllocationFailed {
        operation: &'static str,
        requested_entries: usize,
        source: CollectionAllocationError,
    },
    /// The operation is not available in the current configuration.
    InvalidOperation { message: String },
    /// Every page of the buffer pool is in use.
    BufferPoolExhausted { pinned_pages: usize, total_pages: usize },
    /// Reading or writing durable storage failed.
    IoFailed { message: String },
}

/// The result of a trie operation.
pub type TrieResult<T> = Result<T, PersistentARTrieError>;

impl PersistentARTrieError {
    /// An internal error with the given message.
    pub fn internal(message: &str) -> (r: Self)
        ensures
            r matches PersistentARTrieError::InternalError { message: m } && m@ == message@,
    {
        PersistentARTrieError::InternalError { message: message.to_owned() }
    }

    /// A corruption error with the given reason.
    pub fn corrupted(reason: &str) -> (r: Self)
        ensures
            r matches PersistentARTrieError::CorruptedFile { reason: m } && m@ == reason@,
    {
        PersistentARTrieError::CorruptedFile { reason: reason.to_owned() }
    }

    /// A failed allocation of `requested_entries` entries.
    pub fn allocation_failed(
        operation: &'static str,
        requested_entries: usize,
        source: CollectionAllocationError,
    ) -> (r: Self)
        ensures
            r == (PersistentARTrieError::AllocationFailed { operation, requested_entries, source }),
    {
        PersistentARTrieError::AllocationFailed { operation, requested_entries, source }
    }
}

/// A collection found no room, and the error holds the reason that it gave.
pub open spec fn no_room(e: PersistentARTrieError) -> bool {
    e is AllocationFailed && (e->source is TryReserve || e->source is Inline)
}

/// Makes room for `additional` more entries, or reports the failed allocation.
pub fn reserve_entries<T>(
    entries: &mut Vec<T>,
    additional: usize,
    operation: &'static str,
    requested_entries: usize,
) -> (r: TrieResult<()>)
    ensures
        final(entries)@ == old(entries)@,
        r matches Err(e) ==> {
            &&& e is AllocationFailed
            &&& e->operation == operation
            &&& e->requested_entries == requested_entries
            &&& e->source is TryReserve
        },
{
    reserve_outcome(entries.try_reserve(additional), operation, requested_entries)
}

/// The outcome of a request for room: room, or the failed allocation with the reason
/// that the collection gave.
pub fn reserve_outcome(
    outcome: Result<(), std::collections::TryReserveError>,
    operation: &'static str,
    requested_entries: usize,
) -> (r: TrieResult<()>)
    ensures
        r == match outcome {
            Ok(()) => Ok::<(), PersistentARTrieError>(()),
            Err(source) => Err(
                PersistentARTrieError::AllocationFailed {
                    operation,
                    requested_entries,
                    source: CollectionAllocationError::TryReserve(source),
                },
            ),
        },
{
    match outcome {
        Ok(()) => Ok(()),
        Err(source) => Err(
            PersistentARTrieError::allocation_failed(
                operation,
                requested_entries,
                CollectionAllocationError::TryReserve(source),
            ),
        ),
    }
}

} // verus!
