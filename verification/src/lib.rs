//! A small MQTT 3.1.1 broker: packet codecs, topic routing, and the
//! per-connection decisions, verified with Verus.
pub mod broker;
pub mod buffer;
pub mod client;
pub mod packet;
pub mod router;
