//! Registration with the WARP API: WireGuard accounts by a Teams token, and
//! MASQUE credentials.

pub mod masque;
pub mod teams;
