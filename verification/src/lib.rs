//! Serial monitor for ESP8266/ESP32 dev boards connected over USB serial: reset and
//! power-cycle a board through its RTS/DTR lines, buffer its console output, split off its
//! stat packets, and watch for a pattern or serve MCP tools on top of that.
//!
//! The crate holds what is decided and computed. Opening ports and files, threads and
//! sleeping are left to the program that runs it.

pub mod cli;
pub mod clock;
pub mod error;
pub mod filelog;
pub mod lineread;
pub mod logbuf;
pub mod mcp;
pub mod paths;
pub mod pattern;
pub mod reader;
pub mod serial;
pub mod stats;
pub mod status;
pub mod text;
