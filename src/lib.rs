//! Parser and serializer for the brace-delimited key/value text format used by
//! material and map description files.

pub mod grammar;
pub mod laws;
pub mod model;
pub mod parse;
pub mod serialize;

pub use grammar::ParseError;
pub use model::{Valve, VmfVmt};
pub use parse::parse_vmf_vmt;
pub use serialize::{build_valve, build_vmf_vmt};
