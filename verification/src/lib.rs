//! Converts a nested call-execution trace — one record per contract call,
//! each holding the sub-calls it made — into a flat list of records, each
//! annotated with a trace address: the path of sibling indices that names its
//! position in the call forest. The conversion is a pure, verified structural
//! transform: `flatten_debug_calls` is proved to return exactly the pre-order
//! flattening described by `model::flatten_spec`, and `laws` derives from that
//! spec the count, uniqueness, ordering, contiguity and fidelity guarantees of
//! the flat-trace shape.

pub mod flatten;
pub mod laws;
pub mod model;
pub mod types;

pub use flatten::flatten_debug_calls;

pub use types::Action;
pub use types::Address;
pub use types::Bytes;
pub use types::CallResult;
pub use types::DebugCall;
pub use types::DebugCallFlat;
pub use types::DebugCallType;
pub use types::FlatRecord;
pub use types::ResultDebugCall;
pub use types::U256;
