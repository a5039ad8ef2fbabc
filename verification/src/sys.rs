//! What the machine tells about itself.

use vstd::prelude::*;
use crate::error::{Error, Fault};

verus! {

/// Stops a run whose interruption flag is raised.
pub fn check_interrupted(raised: bool) -> (r: Result<(), Error>)
    ensures
        match r {
            Ok(_) => !raised,
            Err(e) => raised && e.says(Fault::Interrupted, Seq::empty(), Seq::empty()),
        },
{
    if raised {
        Err(Error::plain(Fault::Interrupted))
    } else {
        Ok(())
    }
}

/// The physical memory, from the number of pages and their size (none when either is unknown, which
/// a number that is not positive says).
pub fn phys_mem(pages: i64, size: i64) -> (r: Option<u64>)
    requires
        pages > 0 && size > 0 ==> pages * size <= u64::MAX,
    ensures
        r == (if pages > 0 && size > 0 {
            Some((pages * size) as u64)
        } else {
            None
        }),
{
    if pages > 0 && size > 0 {
        Some(pages as u64 * size as u64)
    } else {
        None
    }
}

/// The free space of a file system, from its free blocks and their size; none when asking failed.
pub fn free_space(asked: bool, blocks: u64, size: u64) -> (r: Option<u64>)
    requires
        asked ==> blocks * size <= u64::MAX,
    ensures
        r == (if asked {
            Some((blocks * size) as u64)
        } else {
            None
        }),
{
    if asked {
        Some(blocks * size)
    } else {
        None
    }
}

} // verus!
