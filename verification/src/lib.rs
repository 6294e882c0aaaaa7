//! Splices timed text into a muxed FLV stream as script-data tags.

pub mod amf;
pub mod drains;
pub mod flv;
pub mod laws;
pub mod meaning;
pub mod settings;
pub mod streams;
pub mod subinject;
pub mod timeline;
