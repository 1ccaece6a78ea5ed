//! A pipe segment that uploads bytes from stdin and prints the resulting URL.
//!
//! The verified core: image metadata stripping, URL and filename handling,
//! response interpretation and the decisions of the upload flow.

pub mod error;
pub mod sanitize;
pub mod text;
pub mod net;
pub mod config;
pub mod upload;
pub mod app;
pub mod cli;
pub mod clipboard;
