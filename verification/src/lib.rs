pub mod data;
pub mod bytes;
pub mod decode;
pub mod encode;
pub mod laws;
pub mod order;
pub mod roundtrip;
pub mod strings;
pub mod table;

pub use data::{CodecError, EntryKey, KeyModel, FORMAT_VERSION, RGB};
pub use decode::from_binary_data;
pub use encode::to_binary_data;
pub use strings::read_cstring;
pub use table::PlayerColorParam;
