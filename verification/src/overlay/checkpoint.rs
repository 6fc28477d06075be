//! How a captured snapshot is published.

use vstd::prelude::*;

verus! {

/// The step that a checkpoint has come to.
#[derive(Clone, Copy, Debug, PartialEq, Eq, Structural)]
pub enum CheckpointStep {
    /// Capture a snapshot of the overlay.
    Capture,
    /// Publish the snapshot and keep the log.
    Publish,
    /// Publish the snapshot and its eviction registry, and keep the log.
    PublishWithEviction,
}

/// The step after a capture. The snapshot itself says whether it holds an eviction
/// registry; what has changed since it was captured does not matter.
pub fn publish_captured_overlay_snapshot(captured_with_eviction: bool) -> (r: CheckpointStep)
    ensures
        r == (if captured_with_eviction {
            CheckpointStep::PublishWithEviction
        } else {
            CheckpointStep::Publish
        }),
{
    if captured_with_eviction {
        CheckpointStep::PublishWithEviction
    } else {
        CheckpointStep::Publish
    }
}

/// The next step of a checkpoint: a snapshot is captured first and published as it was
/// captured. Nothing follows publication.
pub fn checkpoint_route_split(
    last: Option<CheckpointStep>,
    captured_with_eviction: bool,
) -> (r: Option<CheckpointStep>)
    ensures
        r == match last {
            None => Some(CheckpointStep::Capture),
            Some(CheckpointStep::Capture) => Some(
                if captured_with_eviction {
                    CheckpointStep::PublishWithEviction
                } else {
                    CheckpointStep::Publish
                },
            ),
            _ => None,
        },
{
    match last {
        None => Some(CheckpointStep::Capture),
        Some(CheckpointStep::Capture) => Some(
            publish_captured_overlay_snapshot(captured_with_eviction),
        ),
        _ => None,
    }
}

} // verus!
