use vstd::prelude::*;

pub mod compare;
pub mod declarations;
pub mod dump;
pub mod error;
pub mod field_order;
pub mod fixed;
pub mod io;
pub mod layout;
pub mod list;
pub mod list_laws;
pub mod message;
pub mod number;
pub mod order;
pub mod positional;
pub mod prelude;
pub mod record;
pub mod record_laws;
pub mod records;
pub mod schema;
pub mod sorting;
pub mod text;
pub mod traits;

pub use error::Error;
pub use fixed::Fixed;
pub use io::{Reader, RecordSeparator, Writer};
pub use traits::{FixedRecord, SequenceFields};

verus! {

} // verus!
