//! Verified core pieces of an SRT endpoint: modular sequence and message numbers,
//! the compressed loss-list encoding of NAKs, the sender's send buffer, the
//! receiver's loss tracking and receive buffer, timer and latency rules, and the
//! settings of a socket builder.

pub mod builder;
pub mod loss_compression;
pub mod msg_number;
pub mod receive_buffer;
pub mod receiver;
pub mod sender;
pub mod seq_number;
pub mod timing;
