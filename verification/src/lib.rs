//! Verified core of a screen-sharing and crowd-input server: frame building
//! and delta compression, the HTTP request reader, websocket message framing
//! and the rules that turn the inputs of many viewers into one set of inputs.
pub mod compression;
pub mod frame;
pub mod http;
pub mod websockets;
pub mod input;
pub mod userinputs;
pub mod setup;
