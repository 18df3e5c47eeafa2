//! A Johnny.Decimal index: areas (`20-29 Finance`), categories (`22 Payroll`) and
//! ids (`22.03 Invoices`), the flat text index that lists them, and the bookkeeping
//! that keeps such an index in step with a directory tree.
//!
//! - `entity`: the grammar of names and the three entity types;
//! - `index`: the index with its invariants, its text form and its changes;
//! - `system`: a root directory and its index, with the decisions around each
//!   change on the file system (the changes themselves are the caller's).

pub mod entity;
pub mod error;
pub mod index;
pub mod keyed;
pub mod system;
pub mod title;

pub use entity::{classify_line, is_area, is_category, is_id, Area, Category, Entry, Id, Keyed, Line};
pub use error::{Error, Violation};
pub use index::{Index, IndexView};
pub use system::{reconcile, Outcome, Reconciled, System, SystemView, Tree};
pub use title::is_valid_title;
