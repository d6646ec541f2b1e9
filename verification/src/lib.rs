//! Reassembly of fragmented messages whose fragments carry a ternary status:
//! complete (+1), pending (0) or missing (-1). Gap detection, forward
//! progress, expiry after a time to live, and reassembly statistics.

pub mod time;
pub mod fragment;
pub mod message;
pub mod buffer;
pub mod laws;

pub use time::Duration;
pub use fragment::{Fragment, FragmentStatus, FragmentView, Progress};
pub use message::{MessageBuffer, MessageView};
pub use buffer::{BufferView, FragmentBuffer, ReassemblyRecord, ReassemblyStats};
