pub use crate::error::Error;
pub use crate::fixed::Fixed;
pub use crate::io::{Reader, RecordSeparator, Writer};
pub use crate::list::RecordList;
pub use crate::record::Record;
pub use crate::traits::{FixedRecord, SequenceFields};
