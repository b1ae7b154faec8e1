//! The error taxonomy of the store.

use vstd::prelude::*;

verus! {

/// The kinds of failure the store can report.
///
/// `Io` covers filesystem-level failures (including exhaustion of the
/// segment-id space), `Codec` a record that cannot be decoded, `Clock` a
/// sequencer that could not be produced, `KeyNotFound` a `remove` of an
/// absent key or a stale pointer, `Conflict` an index update whose
/// sequencer does not supersede the stored one, and `InvalidArgument` is
/// reserved for the command-line layer and never produced by the engine.
#[derive(Clone, Copy, Debug, PartialEq, Eq, Structural)]
pub enum KvError {
    Io,
    Codec,
    Clock,
    KeyNotFound,
    Conflict,
    InvalidArgument,
}

} // verus!
