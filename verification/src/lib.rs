pub mod message;
pub mod net;
pub mod resolver;
pub mod root_hints;
pub mod singleflight;
pub mod server;
pub mod cache;
pub mod workerpool;
pub mod doh;
pub mod client;
