//! Line-framed IPC and reconnect logic of a chat client that can hand its connection over to a
//! successor process.

pub mod buckets;
pub mod chat;
pub mod control;
pub mod error;
pub mod events;
pub mod ipc;
pub mod ipc_laws;
pub mod lineio;
pub mod lines;
pub mod message;
pub mod poll;
pub mod takeover;
pub mod text;
