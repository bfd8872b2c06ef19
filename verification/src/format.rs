//! Compression formats: which header layout goes with the data
use vstd::prelude::*;

use crate::header::mode::{
    Maxis as MaxisHeader, Mode as HeaderMode, Reference as ReferenceHeader, SimEA as SimEAHeader,
};

verus! {

/// A format to use for compression and decompression.
///
/// It is only referenced through generic arguments and should only be
/// implemented on types that cannot be constructed.
pub trait Format {
    /// The header layout used by the format
    type HeaderMode: HeaderMode;
}

/// The format of the RefPack reference implementation of the 90s, with a short
/// header that only holds the decompressed size
/// ([Reference](crate::header::mode::Reference))
pub struct Reference {
    _private: (),
}

impl Format for Reference {
    type HeaderMode = ReferenceHeader;
}

/// Format used by The Sims games from Sims 1 to 2, as well as Simcity 4, with
/// the [Maxis](crate::header::mode::Maxis) header
pub struct Maxis {
    _private: (),
}

impl Format for Maxis {
    type HeaderMode = MaxisHeader;
}

/// Format used by The Sims 3 and Sims 4, with the
/// [SimEA](crate::header::mode::SimEA) header
pub struct SimEA {
    _private: (),
}

impl Format for SimEA {
    type HeaderMode = SimEAHeader;
}

} // verus!
