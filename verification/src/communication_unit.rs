use crate::data_buffer::{u16_at, u16_bytes, DataBuffer};
use crate::property::sock_val;
use vstd::prelude::*;

verus! {

/// One end of a connection that exchanges buffers with its peers.
pub trait CommunicationUnit {
    /// Connects (or accepts connections); true when connected.
    fn connect(&mut self) -> bool;

    /// Closes the connection(s).
    fn disconnect(&mut self);

    /// Sends `buffer` to the peer `id`.
    fn write(&mut self, id: u32, buffer: &mut DataBuffer);

    /// Receives the next buffer, with the id of its sender.
    fn read(&mut self) -> (u32, DataBuffer);
}

/// The bytes of a packet that carries `body`: the check code, the body's length cut to
/// 16 bits, then the body.
pub open spec fn packet_bytes(body: Seq<u8>) -> Seq<u8> {
    u16_bytes(sock_val::PACKET_CHECK) + u16_bytes(body.len() as u16) + body
}

/// The packet that carries all of `buffer`'s bytes; `buffer` is left as it was.
pub fn frame_packet(buffer: &mut DataBuffer) -> (r: Vec<u8>)
    ensures
        r@ == packet_bytes(old(buffer).data_vec@),
        final(buffer).data_vec@ == old(buffer).data_vec@,
        final(buffer).index == old(buffer).index,
{
    let mut packet = DataBuffer::new();
    packet.set_u16(sock_val::PACKET_CHECK);
    packet.set_u16(buffer.get_size() as u16);
    packet.set_buffer(buffer);
    proof {
        assert(packet.data_vec@ =~= packet_bytes(old(buffer).data_vec@));
    }
    packet.get_buffer_vec()
}

/// The body length a packet header announces, when it starts with the check code.
pub fn packet_body_size(header: &[u8]) -> (r: Option<usize>)
    requires
        header@.len() == sock_val::PACKET_HEAD_SIZE,
    ensures
        r is Some <==> u16_at(header@, 0) == sock_val::PACKET_CHECK,
        r matches Some(n) ==> n == u16_at(header@, 2),
{
    let code = (header[0] as u16) * 0x100 + header[1] as u16;
    let size = (header[2] as usize) * 0x100 + header[3] as usize;
    if code == sock_val::PACKET_CHECK {
        Some(size)
    } else {
        None
    }
}

/// What a read of one connection end gives: the peer's id with the body received, or,
/// when nothing was received, its own id with an empty buffer. A server-side end's peer
/// is a client, a client's peer the server.
pub fn packet_reply(is_server: bool, body: Option<Vec<u8>>) -> (r: (u32, DataBuffer))
    ensures
        r.1.index == 0,
        body matches Some(b) ==> r.0 == (if is_server {
            sock_val::CLIENT
        } else {
            sock_val::SERVER
        }) && r.1.data_vec@ == b@,
        body is None ==> r.0 == (if is_server {
            sock_val::SERVER
        } else {
            sock_val::CLIENT
        }) && r.1.data_vec@ == Seq::<u8>::empty(),
{
    match body {
        Some(b) => {
            let mut buffer = DataBuffer::new();
            buffer.set_buffer_vec(b);
            (
                if is_server {
                    sock_val::CLIENT
                } else {
                    sock_val::SERVER
                },
                buffer,
            )
        },
        None => (
            if is_server {
                sock_val::SERVER
            } else {
                sock_val::CLIENT
            },
            DataBuffer::new(),
        ),
    }
}

/// A packet's header announces its body: the check code, and the body's length when that
/// fits in 16 bits.
pub proof fn law_packet_header(body: Seq<u8>)
    requires
        body.len() <= 0xffff,
    ensures
        u16_at(packet_bytes(body), 0) == sock_val::PACKET_CHECK,
        u16_at(packet_bytes(body), 2) == body.len(),
        packet_bytes(body).subrange(4, packet_bytes(body).len() as int) == body,
{
    let p = packet_bytes(body);
    assert(p[0] == u16_bytes(sock_val::PACKET_CHECK)[0]);
    assert(p[1] == u16_bytes(sock_val::PACKET_CHECK)[1]);
    assert(p[2] == u16_bytes(body.len() as u16)[0]);
    assert(p[3] == u16_bytes(body.len() as u16)[1]);
    assert(p.subrange(4, p.len() as int) =~= body);
}

} // verus!
