//! Core of a peer-to-peer overlay node: the 160-bit identifier ring, the
//! transport registry that maps peer addresses to live connections, the
//! decode step that turns raw connection events into relay messages, and the
//! node's configuration values.
pub mod did;
mod error;
pub mod processor;
pub mod relay;
pub mod swarm;

pub use did::Did;
pub use error::Error;
pub use processor::{
    pack_custom_message, unpack_text_message, CustomMessage, HttpTransport, Peer,
    ProcessorBuilder, ProcessorConfig, ProcessorConfigSerialized, SessionSk,
};
pub use relay::{deliver_all, load_message, payload, stream_step, Event, MessageRelay, StreamStep};
pub use swarm::Swarm;
