//! Verified core of a webview capture plugin: capture-session state machines,
//! frame naming, region statistics over luma frames, and the plugin's error type.

pub mod error;
pub mod frames;
pub mod session;
pub mod region;
pub mod luma;
pub mod analysis;
pub mod scan;

pub use error::{Error, Result};
