//! A columnar store for telemetry: how records become files, which files are
//! worth reading, and what a query is told.

pub mod api;
pub mod arrays;
pub mod buffer;
pub mod catalog;
pub mod civil;
pub mod compact;
pub mod ids;
pub mod merged;
pub mod objects;
pub mod order;
pub mod otlp;
pub mod paths;
pub mod receiver;
pub mod record;
pub mod seed;
pub mod spans;
pub mod table;
pub mod text;
pub mod types;
pub mod writer;
