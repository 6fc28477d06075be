//! How a log file is brought to durable storage.

use vstd::prelude::*;

verus! {

/// The backend that asks the operating system to sync the file and waits.
pub struct StdFsync;

/// The number of submission entries of a ring that nobody chose a size for.
pub const DEFAULT_RING_ENTRIES: u32 = 8;

/// What a completion entry of a sync says: a negative result is an error number.
pub fn completion_status(result: i32) -> (r: Result<(), i32>)
    requires
        result > i32::MIN,
    ensures
        r == (if result < 0 {
            Err::<(), i32>((-result) as i32)
        } else {
            Ok(())
        }),
{
    if result < 0 {
        Err(-result)
    } else {
        Ok(())
    }
}

} // verus!
