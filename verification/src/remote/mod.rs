//! A persistent, remotely controllable player: the wire format, pairing, and what the server decides.
pub mod connection;
pub mod dash;
pub mod delivery;
pub mod devices;
pub mod digest;
pub mod hls;
pub mod pairing;
pub mod protocol;
pub mod random;
pub mod server;
pub mod tls;
pub mod vr;
