//! Static IPv4 over one NIC: ARP for the gateway, UDP, and passive TCP.
//!
//! Everything works on a `NetState`. The driver hands in received frames, the
//! clock and the device's verdicts; frames to send are staged on the link.
pub mod acts;
pub mod again;
pub mod dev;
pub mod laws;
pub mod linger;
pub mod peer;
pub mod sock;
pub mod state;
pub mod stream;
pub mod tcp;
pub mod wire;
