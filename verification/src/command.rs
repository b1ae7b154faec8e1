//! Log records: the `Command` written to segments and the `Sequencer`
//! tag that orders mutations of the same key.

use vstd::prelude::*;

use crate::error::KvError;

verus! {

/// A monotone tag attached to every mutation at creation time.
/// Two commands for one key conflict unless the newer one carries a
/// strictly greater sequencer.
#[derive(Clone, Copy, Debug, PartialEq, Eq, Structural)]
pub struct Sequencer {
    pub timestamp: u128,
}

/// Relies on `std::time::SystemTime::now` and `duration_since(UNIX_EPOCH)`:
/// nanoseconds since the Unix epoch, or `None` when the clock reads a time
/// before the epoch. Nothing is assumed about the value returned.
#[verifier::external_body]
pub(crate) fn clock_nanos() -> Option<u128> {
    std::time::SystemTime::now()
        .duration_since(std::time::UNIX_EPOCH)
        .ok()
        .map(|d| d.as_nanos())
}

impl Sequencer {
    /// Reads the system clock. Fails with `Clock` exactly when the clock
    /// could not produce a tag; nothing is promised about the value read.
    pub fn new() -> (r: Result<Sequencer, KvError>)
        ensures
            r matches Err(e) ==> e == KvError::Clock,
    {
        match clock_nanos() {
            Some(t) => Ok(Sequencer { timestamp: t }),
            None => Err(KvError::Clock),
        }
    }
}

/// The mathematical form of a log record: keys and values as character
/// sequences, the sequencer as its timestamp.
pub enum CmdV {
    Put { key: Seq<char>, value: Seq<char>, sequencer: u128 },
    Rm { key: Seq<char>, sequencer: u128 },
}

impl CmdV {
    pub open spec fn key(self) -> Seq<char> {
        match self {
            CmdV::Put { key, .. } => key,
            CmdV::Rm { key, .. } => key,
        }
    }

    pub open spec fn seq(self) -> u128 {
        match self {
            CmdV::Put { sequencer, .. } => sequencer,
            CmdV::Rm { sequencer, .. } => sequencer,
        }
    }

    pub open spec fn value(self) -> Seq<char> {
        match self {
            CmdV::Put { value, .. } => value,
            CmdV::Rm { .. } => Seq::empty(),
        }
    }
}

/// A log record: an upsert or a deletion of one key.
#[derive(Debug)]
pub enum Command {
    Put { key: String, value: String, sequencer: Sequencer },
    Rm { key: String, sequencer: Sequencer },
}

impl View for Command {
    type V = CmdV;

    open spec fn view(&self) -> CmdV {
        match self {
            Command::Put { key, value, sequencer } => CmdV::Put {
                key: key@,
                value: value@,
                sequencer: sequencer.timestamp,
            },
            Command::Rm { key, sequencer } => CmdV::Rm {
                key: key@,
                sequencer: sequencer.timestamp,
            },
        }
    }
}

impl Command {
    /// The key the record mutates.
    pub fn get_key(&self) -> (r: &String)
        ensures
            r@ == self@.key(),
    {
        match self {
            Command::Put { key, .. } => key,
            Command::Rm { key, .. } => key,
        }
    }

    /// The value carried by a `Put`; `None` for a `Rm`.
    pub fn get_value(&self) -> (r: Option<&String>)
        ensures
            self@ is Put <==> (r matches Some(v) && v@ == self@.value()),
            self@ is Rm <==> r is None,
    {
        match self {
            Command::Put { value, .. } => Some(value),
            Command::Rm { .. } => None,
        }
    }

    /// The sequencer the record carries.
    pub fn get_sequencer(&self) -> (r: &Sequencer)
        ensures
            r.timestamp == self@.seq(),
    {
        match self {
            Command::Put { sequencer, .. } => sequencer,
            Command::Rm { sequencer, .. } => sequencer,
        }
    }
}

impl Clone for Command {
    fn clone(&self) -> (r: Self)
        ensures
            r@ == self@,
    {
        match self {
            Command::Put { key, value, sequencer } => Command::Put {
                key: key.clone(),
                value: value.clone(),
                sequencer: *sequencer,
            },
            Command::Rm { key, sequencer } => Command::Rm {
                key: key.clone(),
                sequencer: *sequencer,
            },
        }
    }
}

impl PartialEq for Command {
    fn eq(&self, other: &Self) -> (r: bool) {
        match (self, other) {
            (
                Command::Put { key: k1, value: v1, sequencer: s1 },
                Command::Put { key: k2, value: v2, sequencer: s2 },
            ) => k1.eq(k2) && v1.eq(v2) && s1.timestamp == s2.timestamp,
            (
                Command::Rm { key: k1, sequencer: s1 },
                Command::Rm { key: k2, sequencer: s2 },
            ) => k1.eq(k2) && s1.timestamp == s2.timestamp,
            _ => false,
        }
    }
}

impl vstd::std_specs::cmp::PartialEqSpecImpl for Command {
    open spec fn obeys_eq_spec() -> bool {
        true
    }

    open spec fn eq_spec(&self, other: &Self) -> bool {
        self@ == other@
    }
}

} // verus!
