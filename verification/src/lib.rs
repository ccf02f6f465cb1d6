//! A verified core for a small Redis-compatible server: an incremental
//! codec for the RESP wire format, a command layer, and an in-memory
//! key/value backend. Byte-exact behaviour is specified against a
//! mathematical model of frames (`FrameData`) and proved with Verus.

mod backend;
mod cmd;
mod resp;

pub use backend::Backend;
pub use cmd::handle_request;
pub use cmd::Command;
pub use cmd::CommandError;
pub use cmd::Get;
pub use cmd::HGet;
pub use cmd::HGetAll;
pub use cmd::HSet;
pub use cmd::SetCmd;
pub use cmd::Unrecognized;
pub use resp::decode::calc_total_len;
pub use resp::decode::decode_frame;
pub use resp::decode::extract_fixed_data;
pub use resp::decode::extract_simple_frame_data;
pub use resp::decode::frame_needed;
pub use resp::decode::parse_length;
pub use resp::decode::read_frame;
pub use resp::decode::RespDecode;
pub use resp::encode::encode_frame;
pub use resp::encode::RespEncode;
pub use resp::frame::BulkString;
pub use resp::frame::RespArray;
pub use resp::frame::RespDouble;
pub use resp::frame::RespError;
pub use resp::frame::RespFrame;
pub use resp::frame::RespMap;
pub use resp::frame::RespNull;
pub use resp::frame::RespNullArray;
pub use resp::frame::RespNullBulkString;
pub use resp::frame::RespSet;
pub use resp::frame::SimpleError;
pub use resp::frame::SimpleString;
