//! How callers address ranges of persisted keyed values.

use vstd::prelude::*;

verus! {

/// How to read a stored map: a page of entries after a cursor, or a
/// specific set of keys.
pub enum Method<K> {
    Paginate { start_after: Option<K>, limit: Option<u32> },
    Select { keys: Vec<K> },
}

/// How a borrowed lookup key turns into an owned output key.
pub trait KeyToOutput {
    type Output;

    fn to_output(self) -> Self::Output;
}

impl KeyToOutput for &String {
    type Output = String;

    fn to_output(self) -> Self::Output {
        self.clone()
    }
}

impl KeyToOutput for &u64 {
    type Output = u64;

    fn to_output(self) -> Self::Output {
        *self
    }
}

} // verus!
