//! What a serialization does, in order: the records that it writes, and the children
//! that it meets without writing them.

use vstd::prelude::*;
use crate::eviction::topology_path;
use crate::registry::{
    grafts_are_stable, holds_graft, paths_are_stable, paths_extend, records_extend,
    DiskLocationRegistry, Graft, RegistryRecord,
};
use crate::swizzled_ptr::SwizzledPtr;
use super::serialize_build::{spec_record_address, CompletedOnDiskImport, OnDiskImportStats};
use super::serialize_model::RecordView;

verus! {

/// Records that were written, in order, with their pointers and the paths that they
/// were written for.
pub type Log<U, V> = Seq<(SwizzledPtr, RecordView<U, V>, Seq<U>)>;

/// How a child that keeps its record came to the registry.
pub enum How {
    /// There is no registry.
    Passed,
    /// The sink took its records over.
    Taken,
    /// What is registered of it was copied.
    Grafted(Graft),
}

/// A child that keeps its record: where it was met, its record, and whether it is in
/// memory.
pub struct Occurrence<U> {
    pub path: Seq<U>,
    pub ptr: SwizzledPtr,
    pub resident: bool,
    pub how: How,
}

/// What was written and what was met.
pub struct Trace<U, V> {
    pub log: Log<U, V>,
    pub met: Seq<Occurrence<U>>,
}

impl<U, V> Trace<U, V> {
    /// One more record.
    pub open spec fn with_record(
        self,
        ptr: SwizzledPtr,
        record: RecordView<U, V>,
        path: Seq<U>,
    ) -> Self {
        Trace { log: self.log.push((ptr, record, path)), met: self.met }
    }

    /// One more child that keeps its record.
    pub open spec fn with_met(self, occurrence: Occurrence<U>) -> Self {
        Trace { log: self.log, met: self.met.push(occurrence) }
    }

    /// What there was before the last child that keeps its record.
    pub open spec fn before_met(self) -> Self {
        Trace { log: self.log, met: self.met.drop_last() }
    }
}

/// The record of a durable child was imported under its address.
pub open spec fn held(imports: Map<u64, CompletedOnDiskImport>, pointer: SwizzledPtr) -> bool {
    pointer.location() matches Some(location) && imports.dom().contains(
        spec_record_address(location) as u64,
    ) && imports[spec_record_address(location) as u64].canonical_ptr == pointer
}

/// A durable child whose records the sink took over.
pub open spec fn taken<U>(occurrence: Occurrence<U>, ptr: SwizzledPtr) -> bool {
    !occurrence.resident && occurrence.how is Taken && occurrence.ptr == ptr
}

/// The records of a durable child were taken over before.
pub open spec fn taken_before<U>(met: Seq<Occurrence<U>>, ptr: SwizzledPtr) -> bool {
    exists|j: int| 0 <= j < met.len() && #[trigger] taken(met[j], ptr)
}

/// Every durable child that was taken over is imported.
pub open spec fn met_imported<U>(
    met: Seq<Occurrence<U>>,
    imports: Map<u64, CompletedOnDiskImport>,
) -> bool {
    forall|j: int|
        0 <= j < met.len() && taken(met[j], met[j].ptr) ==> held(
            imports,
            (#[trigger] met[j]).ptr,
        )
}

/// A registry has a record at a path, which is resident or not.
pub open spec fn has_record<U>(
    registry: DiskLocationRegistry<U>,
    path: Seq<U>,
    ptr: SwizzledPtr,
    resident: bool,
) -> bool {
    exists|i: int|
        0 <= i < registry.records@.len() && record_at(
            registry,
            #[trigger] registry.records@[i],
            path,
            ptr,
            resident,
        )
}

/// A record lies at a path.
pub open spec fn record_at<U>(
    registry: DiskLocationRegistry<U>,
    record: RegistryRecord,
    path: Seq<U>,
    ptr: SwizzledPtr,
    resident: bool,
) -> bool {
    &&& 0 < record.path_id.ordinal <= registry.topology.entries@.len()
    &&& topology_path(registry.topology.entries@, record.path_id.ordinal as int) == path
    &&& record.disk_ptr == ptr
    &&& record.resident == resident
}

/// What a registry has of a child that keeps its record: a record of it at its path
/// where it was taken over, and the whole copy where it was copied.
pub open spec fn entered<U>(registry: DiskLocationRegistry<U>, occurrence: Occurrence<U>) -> bool {
    match occurrence.how {
        How::Passed => true,
        How::Taken => has_record(
            registry,
            occurrence.path,
            occurrence.ptr,
            occurrence.resident,
        ),
        How::Grafted(graft) => holds_graft(
            registry,
            graft,
            occurrence.path,
            occurrence.ptr,
            occurrence.resident,
        ),
    }
}

/// A registry that grows keeps what it has of a child.
pub proof fn lemma_entered_grows<U>(
    before: DiskLocationRegistry<U>,
    after: DiskLocationRegistry<U>,
    occurrence: Occurrence<U>,
)
    requires
        entered(before, occurrence),
        paths_extend(before.topology.entries@, after.topology.entries@),
        records_extend(before.records@, after.records@),
    ensures
        entered(after, occurrence),
{
    let (path, ptr, resident) = (occurrence.path, occurrence.ptr, occurrence.resident);
    match occurrence.how {
        How::Passed => {},
        How::Taken => {
            let i = choose|i: int|
                0 <= i < before.records@.len() && record_at(
                    before,
                    #[trigger] before.records@[i],
                    path,
                    ptr,
                    resident,
                );
            assert(after.records@[i] == before.records@[i]);
            paths_are_stable(
                before.topology.entries@,
                after.topology.entries@,
                before.records@[i].path_id.ordinal as int,
            );
            assert(record_at(after, after.records@[i], path, ptr, resident));
        },
        How::Grafted(graft) => {
            grafts_are_stable(before, after, graft, path, ptr, resident);
        },
    }
}

/// What a child adds to the counts of imports. Only durable children count.
pub open spec fn counted_met<U>(
    stats: OnDiskImportStats,
    occurrence: Occurrence<U>,
) -> OnDiskImportStats {
    if occurrence.resident {
        stats
    } else {
        match occurrence.how {
            How::Passed => stats.with_lookup(),
            How::Taken => stats.with_lookup().with_source_import(),
            How::Grafted(graft) => stats.with_lookup().with_local_graft(graft.stats),
        }
    }
}

/// The counts of imports after some children.
pub open spec fn counted_from<U>(
    stats: OnDiskImportStats,
    met: Seq<Occurrence<U>>,
    from: nat,
) -> OnDiskImportStats
    decreases met.len(),
{
    if met.len() <= from {
        stats
    } else {
        counted_met(counted_from(stats, met.drop_last(), from), met.last())
    }
}

} // verus!
