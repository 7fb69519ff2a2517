//! SOCKS4 and SOCKS4a: CONNECT only.
//!
//! A request is a version, a command, a port, an IPv4 address and a user name
//! that ends in a zero byte. The address 0.0.0.1 announces a domain that
//! follows, also up to a zero byte. The user name is not checked.

use crate::addr;
use crate::outbound;
use crate::outbound::{Host, HostView};
use crate::text;
use crate::wire;
use vstd::prelude::*;

verus! {

pub const CMD_CONNECT: u8 = 0x01;

pub const GRANTED: u8 = 0x5a;

pub const REJECTED: u8 = 0x5b;

/// An answer.
pub open spec fn answer(code: u8) -> Seq<u8> {
    seq![0x00u8, code, 0, 0, 0, 0, 0, 0]
}

/// An answer.
pub fn reply(code: u8) -> (out: Vec<u8>)
    ensures
        out@ == answer(code),
{
    let mut out: Vec<u8> = Vec::new();
    out.push(0x00);
    out.push(code);
    out.push(0);
    out.push(0);
    out.push(0);
    out.push(0);
    out.push(0);
    out.push(0);
    assert(out@ =~= answer(code));
    out
}

/// What the bytes of a request, as far as they have come, call for.
#[derive(Debug, PartialEq, Eq)]
pub enum Request {
    /// At least this many bytes are still to come.
    NeedMore(usize),
    /// Answer, and turn the client away because of its command.
    Refuse(Vec<u8>, u8),
    /// Connect to this target.
    Connect(Host, u16),
}

/// `Request` in terms of sequences.
pub enum RequestView {
    NeedMore(int),
    Refuse(Seq<u8>, u8),
    Connect(HostView, u16),
}

impl View for Request {
    type V = RequestView;

    open spec fn view(&self) -> RequestView {
        match self {
            Request::NeedMore(n) => RequestView::NeedMore(*n as int),
            Request::Refuse(b, cmd) => RequestView::Refuse(b@, *cmd),
            Request::Connect(h, port) => RequestView::Connect(h@, *port),
        }
    }
}

/// What the bytes of a request call for.
pub open spec fn request_of(buf: Seq<u8>) -> RequestView {
    if buf.len() < 2 {
        RequestView::NeedMore(2 - buf.len())
    } else if buf[1] != CMD_CONNECT {
        RequestView::Refuse(answer(REJECTED), buf[1])
    } else if buf.len() < 9 {
        RequestView::NeedMore(9 - buf.len())
    } else {
        let port = wire::be_value(buf.subrange(2, 4)) as u16;
        let ip = buf.subrange(4, 8);
        let user_end = wire::byte_at(buf, 8, 0x00);
        if user_end >= buf.len() {
            RequestView::NeedMore(1)
        } else if ip == seq![0u8, 0, 0, 1] {
            let name_end = wire::byte_at(buf, user_end + 1, 0x00);
            if name_end >= buf.len() {
                RequestView::NeedMore(1)
            } else {
                RequestView::Connect(
                    outbound::host_of_text(
                        text::utf8_lossy(buf.subrange(user_end + 1, name_end)),
                    ),
                    port,
                )
            }
        } else {
            RequestView::Connect(HostView::Ip(ip), port)
        }
    }
}

/// Reads a request.
pub fn read_request(buf: &[u8]) -> (r: Request)
    ensures
        r@ == request_of(buf@),
{
    if buf.len() < 2 {
        return Request::NeedMore(2 - buf.len());
    }
    if buf[1] != CMD_CONNECT {
        return Request::Refuse(reply(REJECTED), buf[1]);
    }
    if buf.len() < 9 {
        return Request::NeedMore(9 - buf.len());
    }
    let port = wire::read_u16(buf, 2);
    let user_end = wire::find_byte(buf, 8, 0x00);
    if user_end >= buf.len() {
        return Request::NeedMore(1);
    }
    let named: bool = buf[4] == 0 && buf[5] == 0 && buf[6] == 0 && buf[7] == 1;
    proof {
        let ip = buf@.subrange(4, 8);
        let mark = seq![0u8, 0, 0, 1];
        assert(ip[0] == buf@[4] && ip[1] == buf@[5] && ip[2] == buf@[6] && ip[3] == buf@[7]);
        if named {
            assert(ip =~= mark);
        } else {
            assert(ip != mark) by {
                assert(mark[0] == 0 && mark[1] == 0 && mark[2] == 0 && mark[3] == 1);
            }
        }
    }
    if named {
        let name_end = wire::find_byte(buf, user_end + 1, 0x00);
        if name_end >= buf.len() {
            return Request::NeedMore(1);
        }
        let name = wire::bytes_of(buf, user_end + 1, name_end);
        let domain = text::lossy_text(name.as_slice());
        Request::Connect(Host::parse(domain.as_str()), port)
    } else {
        Request::Connect(Host::Ip(addr::ipv4_from(buf, 4)), port)
    }
}

} // verus!
