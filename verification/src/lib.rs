//! Incidence-first embedded graph database core.
use vstd::prelude::*;

pub mod catalog;
pub mod crc;
pub mod error;
pub mod id;
pub mod value;
pub mod state;
pub mod overlay;
pub mod schema;
pub mod read;
pub mod typed;
pub mod wire;
pub mod codec;
pub mod wal;
pub mod projection;
pub mod traversal;
pub mod text;
pub mod query;
