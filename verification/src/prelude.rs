//! What a handler's author needs in one place.
use vstd::prelude::*;
pub use crate::context::HandleContext;

verus! {

/// A value that is sent as the text of its `Debug` form. This is the bare
/// type: its `serde::Serialize` impl cannot stand in verified code, and the
/// runtime cannot implement that outside trait for a type of this crate, so
/// the runtime keeps a copy that carries the impl, with conversions both ways.
pub struct SerializeAsDebugString<T>(pub T);

} // verus!
