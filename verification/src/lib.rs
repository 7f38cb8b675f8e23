//! A verified core of a D-Bus client: the type-signature engine, the wire
//! message codec, and the pure parts of the connection handshake and of
//! reply matching. The caller owns the stream and moves the bytes.

pub mod address;
pub mod align;
pub mod connection;
pub mod message;
pub mod order;
pub mod parse;
pub mod signature;

pub use align::Format;
pub use connection::Connection;
pub use connection::ConnectionError;
pub use message::Message;
pub use message::MessageField;
pub use message::MessageType;
pub use parse::validate;
pub use parse::SignatureError;
pub use signature::Signature;
