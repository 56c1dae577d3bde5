use vstd::prelude::*;

verus! {

/// An opaque identifier for a resolved command.
///
/// The engine never interprets this value: it only stores it at registration
/// time and hands it back, by value, when a chord resolves.
#[derive(PartialEq, Eq, Clone, Copy, Debug)]
pub struct Input(pub u64);

} // verus!
