//! What the operations of the library are for, stated of their calls: what results
//! must satisfy, and how calls that follow each other relate.
//!
//! A law speaks of calls by `call_ensures`, which holds of the results that a call may
//! have. A call on a `&mut` value goes from the value before it to the value after it.

pub mod builds;
pub mod cas_loop;
pub mod cursors;
pub mod durability;
pub mod evictions;
pub mod faults;
pub mod listings;
pub mod log;
pub mod nodes;
pub mod order;
pub mod paths;
pub mod pointers;
pub mod records;
pub mod registries;
pub mod roots;
pub mod serializing;
pub mod trackers;
pub mod tries;
pub mod versions;
pub mod writes;
pub mod writing;
