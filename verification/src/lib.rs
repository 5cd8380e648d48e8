//! Core of the `bw-wez` helper: the bridge between WezTerm and the Bitwarden
//! desktop app.
//!
//! Every rule of the helper lives here and is proved against its contract: key
//! handling and the EncString format, the native-messaging frames and the
//! encrypted command protocol, one-time passwords, reading the vault, and the
//! in-memory agent. Sockets, processes, files and the environment belong to the
//! program around this library.

pub mod agent;
pub mod cli;
pub mod clock;
pub mod codec;
pub mod crypto;
pub mod error;
pub mod json;
pub mod locations;
pub mod protocol;
pub mod text;
pub mod totp;
pub mod transport;
pub mod vault;
