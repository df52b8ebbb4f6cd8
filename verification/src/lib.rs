//! Array-backed tables that hand out their own keys.
//!
//! A table stores values in the slots of a backing array and gives each
//! value a key: the offset of its slot. The slot of a value that was taken
//! is reused, the one vacated last first.
//!
//! - [`Stash`] reuses keys: the key of a taken value is the key of the next
//!   value put.
//! - [`UniqueStash`] (also [`VerStash`]) gives each slot a version, which
//!   goes up whenever the slot is vacated, and keys a value by offset and
//!   version: a key whose value was taken stays dead.
//!
//! Every operation is verified against a mathematical model of the table
//! (`stash::model::Table`, `unique_stash::model::VerTable`), and the laws of
//! the operations are proved of the models: sizes, the fate of keys, that
//! keys do not depend on values, that iteration is complete, and that each
//! key has one text.

mod backing;
pub mod index;
pub mod scan;
pub mod stash;
pub mod unique_stash;
pub mod ver_stash;

pub use crate::index::Index;
pub use crate::stash::Stash;
pub use crate::unique_stash::{Tag, TagParseError, UniqueStash};
pub use crate::ver_stash::VerStash;
