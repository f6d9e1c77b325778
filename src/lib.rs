//! Host-side engine for the PY32F0xx in-system-programming bootloader.

pub mod chunk;
pub mod codec;
pub mod command;
pub mod error;
pub mod handshake;
pub mod memory_map;
pub mod py32f0xx_isp;
pub mod reply;
pub mod trace;
pub mod transport;

pub use error::Error;
pub use py32f0xx_isp::Py32F0xxIsp;
pub use transport::{LinkError, Transport};

