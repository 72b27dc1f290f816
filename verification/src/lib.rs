pub mod text;
pub mod base64;
pub mod json;
pub mod model;
pub mod fields;
pub mod fastexport;
pub mod cli;
pub mod roundtrip;
pub mod lenient;
pub mod reread;
pub mod field_laws;
