//! A small registry of network devices, keyed by name, together with the
//! logic that keeps a device's volatile IP address in step with the network:
//! parsing the OS neighbor table, resolving a device's stable MAC address to
//! its current IP, and reading and writing the persisted registry file.
//!
//! All I/O (running the sweep and neighbor-table tools, reading and writing
//! the registry file, the interactive prompts) lives outside this crate; the
//! functions here take the raw tool output and file contents as plain values
//! and hand plain values back.

pub mod addr;
pub mod arp;
pub mod config;
pub mod device;
pub mod errors;
pub mod resolve;
pub mod text;
