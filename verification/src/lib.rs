//! gRIP: handle tables, C-string copying and a shared, mutable JSON value
//! heap that a Pawn scripting host drives through numeric handles.

pub mod cell_map;
pub mod errors;
pub mod ffi;
pub mod gc_json;
pub mod json_text;
