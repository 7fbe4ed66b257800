//! The watch-lifecycle engine of an incron-style daemon: it parses the
//! user's watch table, keeps the registry that maps kernel watch
//! descriptors back to the entries they stand for, expands recursive
//! watches over subdirectories, retries failed registrations, routes
//! incoming events to their commands with template substitution, and
//! frames the control socket's reload message.

use vstd::prelude::*;

pub mod config;
pub mod events;
pub mod parser;
pub mod registry;
pub mod state;
pub mod watch;

verus! {

/// A message understood by the daemon's control socket.
#[derive(Debug, Clone, Copy, PartialEq, Eq, Structural)]
pub enum SocketMessage {
    UpdateWatches,
}

/// The wire form of a control message: its tag as four little-endian
/// bytes.  `UpdateWatches` is tag zero.
pub open spec fn spec_encode_message(m: SocketMessage) -> Seq<u8> {
    seq![0u8, 0u8, 0u8, 0u8]
}

/// Encode a control message for the socket.
pub fn encode_socket_message(m: &SocketMessage) -> (r: Vec<u8>)
    ensures
        r@ == spec_encode_message(*m),
{
    let v: Vec<u8> = vec![0u8, 0u8, 0u8, 0u8];
    proof {
        assert(v@ =~= spec_encode_message(*m));
    }
    v
}

/// Decode what a control connection sent: the message whose four-byte
/// tag starts the buffer; trailing bytes are ignored, anything else is
/// refused.
pub fn decode_socket_message(buf: &[u8]) -> (r: Option<SocketMessage>)
    ensures
        r is Some <==> (buf@.len() >= 4 && buf@.subrange(0, 4) == spec_encode_message(
            SocketMessage::UpdateWatches,
        )),
        match r {
            Some(m) => m == SocketMessage::UpdateWatches,
            None => true,
        },
{
    if buf.len() >= 4 && buf[0] == 0 && buf[1] == 0 && buf[2] == 0 && buf[3] == 0 {
        proof {
            assert(buf@.subrange(0, 4) =~= spec_encode_message(SocketMessage::UpdateWatches));
        }
        Some(SocketMessage::UpdateWatches)
    } else {
        proof {
            if buf@.len() >= 4 && buf@.subrange(0, 4) == spec_encode_message(
                SocketMessage::UpdateWatches,
            ) {
                assert(buf@[0] == buf@.subrange(0, 4)[0]);
                assert(buf@[1] == buf@.subrange(0, 4)[1]);
                assert(buf@[2] == buf@.subrange(0, 4)[2]);
                assert(buf@[3] == buf@.subrange(0, 4)[3]);
            }
        }
        None
    }
}

/// Law: what `encode_socket_message` produces is exactly what
/// `decode_socket_message` accepts, and it stands for the encoded
/// message itself.
pub proof fn lemma_socket_message_roundtrip(m: SocketMessage)
    ensures
        spec_encode_message(m).len() >= 4,
        spec_encode_message(m).subrange(0, 4) == spec_encode_message(SocketMessage::UpdateWatches),
        m == SocketMessage::UpdateWatches,
{
    assert(spec_encode_message(m).subrange(0, 4) =~= spec_encode_message(
        SocketMessage::UpdateWatches,
    ));
}

} // verus!
