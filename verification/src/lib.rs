//! A local server for a Gausify splat library: the logic of a drop-in
//! replacement for an nginx static host with JSON directory listings.
//!
//! - `config`: command-line flags and `gausify.toml` merged into settings;
//! - `net`: which interface addresses are announced;
//! - `banner`: the startup banner;
//! - `paths`: request paths resolved to traversal-safe components;
//! - `listing`: JSON directory listings, sorted by name, without dotfiles;
//! - `serve`: counters, dispatch, frame caching, `Content-Length` reading;
//! - `tls`: the self-signed certificate, generated with `rcgen`;
//! - `text`: decimal and dotted-quad text.
use vstd::prelude::*;

pub mod banner;
pub mod config;
pub mod listing;
pub mod net;
pub mod paths;
pub mod serve;
pub mod text;
pub mod tls;

verus! {

} // verus!
