//! Bridging a document-processing engine to a caller on the far side of a
//! language boundary: the relay of the engine's diagnostics to a sink that the
//! caller owns, the plan of one processing session and the choice of its
//! output, and the turning of the generated interface header into one that can
//! be deployed.

pub mod artifacts;
pub mod diagnostics;
pub mod header;
pub mod session;
