//! Firmware logic for a portable e-paper drawing pad: the display controller's
//! command sequences, the in-memory images, the freehand drawing session, touch
//! decoding, the QR code of the setup screen and the captive portal's DNS and
//! HTTP replies.
//!
//! Nothing here touches hardware. A driver hands out the bus operations it
//! wants performed, the caller performs them and reports how they went.

pub mod ap;
pub mod controller;
pub mod dns;
pub mod framebuffer;
pub mod ft6336;
pub mod gdeq0426t82;
pub mod geometry;
pub mod http;
pub mod nvs;
pub mod paper;
pub mod qr;
pub mod query;
pub mod script;
pub mod shapes;
pub mod text;
pub mod touch;
pub mod waveform;
pub mod wifi;
