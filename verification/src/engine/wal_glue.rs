//! Ownership of the running write-ahead log.

use vstd::prelude::*;

verus! {

/// Owns the running log for the lifetime of an engine; dropping the handle
/// drops the log, which drains it and shuts it down.
pub struct WalHandle<W> {
    pub _wal: W,
}

impl<W> WalHandle<W> {
    pub fn new(wal: W) -> (r: Self)
        ensures
            r._wal == wal,
    {
        WalHandle { _wal: wal }
    }
}

}
