//! What the library promises of its parts, in terms of what goes in and what
//! comes out: each law is stated over all inputs, in the bytes, texts and numbers
//! that the outside world sees.

pub mod accounts;
pub mod addresses;
pub mod endpoints;
pub mod masque;
pub mod names;
pub mod proxy;
pub mod settings;
pub mod socks;
pub mod texts;
pub mod tunnels;
