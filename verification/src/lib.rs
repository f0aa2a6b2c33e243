//! Rendering, lookup and reporting logic of the gateway configuration tool.
pub mod json;
pub mod text;
pub mod doc;
pub mod explain;
pub mod schema;
pub mod secrets;
pub mod order;
pub mod wiring;
pub mod init;
