//! Decoding of EmotiBit telemetry records into typed packets, and
//! reconstruction of the linear map from the device clock to the host clock
//! out of the clock exchanges recorded in the same stream.
//!
//! Numbers are kept exactly: decimal fields as `Decimal`, device and host times
//! of the clock map in whole nanoseconds.
pub mod number;
pub mod packet;
pub mod parser;
pub mod record;
pub mod text;
pub mod types;

pub use number::Decimal;
pub use packet::DataPacket;
pub use parser::{TimeSync, TimeSyncMap, SyncError};
pub use record::Csv;
pub use types::{DataType, DecodeError};
