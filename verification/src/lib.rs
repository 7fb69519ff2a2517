use vstd::prelude::*;

pub mod addr;
pub mod appconfig;
pub mod b64;
pub mod config;
pub mod dns;
pub mod endpoint;
pub mod health;
pub mod http;
pub mod http_proxy;
pub mod json;
pub mod keys;
pub mod laws;
pub mod mixed;
pub mod netstack;
pub mod outbound;
pub mod registration;
pub mod relay;
pub mod socks4;
pub mod socks5;
pub mod supervisor;
pub mod system;
pub mod table;
pub mod text;
pub mod tunnel;
pub mod wire;
