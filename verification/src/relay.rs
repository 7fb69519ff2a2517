//! Between a client and a way out: the time that a connection may take.

use crate::outbound::masque;
use crate::text;
use vstd::prelude::*;

verus! {

/// Seconds within which a connection to a target is made. It leaves a margin
/// over what the slowest way out needs to mend its tunnel and connect: a shorter
/// time would turn a connection that is being mended into a failure.
pub const CONNECT_TIMEOUT: u64 = masque::CONNECT_STREAM_TIMEOUT + 5;

/// What is said of a connection that took too long.
pub fn timeout_message() -> (s: String)
    ensures
        s@ == "连接目标超时（"@ + text::decimal(CONNECT_TIMEOUT as nat) + "s）"@,
{
    let mut out: Vec<char> = Vec::new();
    text::push_str(&mut out, "连接目标超时（");
    text::push_decimal(&mut out, CONNECT_TIMEOUT);
    text::push_str(&mut out, "s）");
    text::string_of(out.as_slice())
}

} // verus!
