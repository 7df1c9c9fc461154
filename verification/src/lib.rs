//! A verified codec for a compact binary container format ("param" format)
//! holding nested, hash-keyed structured data. The library converts between
//! the binary form and an in-memory [`value::Value`] tree; stream I/O and
//! generic typed (de)serialization sit outside it.
#![verifier::loop_isolation(false)]
use vstd::prelude::*;

pub mod value;
pub mod wire;
pub mod de;
pub mod ser;

verus! {

pub use crate::value::Hash40;
pub use crate::value::ParamId;
pub use crate::value::Value;
pub use crate::value::ValueSpec;
pub use crate::de::from_slice;
pub use crate::ser::to_vec;

} // verus!
