//! An in-memory store of named tables. Each table files opaque objects and
//! fixed-entry-size bitmaps under inclusive `u64` ranges; bitmaps of one entry
//! size are merged on insert and cut around holes on delete.

pub mod range;
pub mod index;
pub mod content;
pub mod names;
pub mod bitmap_laws;
pub mod db;
pub mod error;
pub mod wire;
pub mod codec;
pub mod laws;

pub use content::{Bitmap, BitmapSlice, Object};
pub use db::DB;
pub use error::DBError;
pub use range::Range;
