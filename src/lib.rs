//! Secure erasure of block storage devices: sanitization schemes made of
//! fill and keystream passes, a plan and its progress, and a driver that
//! writes, reads back and retries over an aligned block interface.
use vstd::prelude::*;

pub mod catalog;
pub mod driver;
pub mod scheme;
pub mod size;
pub mod storage;
pub mod stream;
pub mod task;

verus! {

} // verus!
