//! The local identity that signs pings, and the lifecycle of the discovery
//! service that owns the socket.
use vstd::prelude::*;

use crate::error::PacketError;
use crate::message::{expiration_of, Endpoint, PingMessage};
use crate::packet::{
    lemma_signed_packet_received, make_packet, received, signed_packet, slice_from,
    tagged_message, tagged_ping,
};
use crate::signer::{is_valid_secret, public_key, public_key_of};

verus! {

/// The local endpoint and the long-term key that signs what it sends.
pub struct Identity {
    pub endpoint: Endpoint,
    /// The 32-byte secret scalar.
    pub private_key: Vec<u8>,
    /// The uncompressed public key of `private_key`.
    pub public_key: Vec<u8>,
}

impl Identity {
    /// An identity from a raw secret key; it is accepted exactly when it is
    /// a 32-byte scalar in 1..order.
    pub fn from_key_bytes(endpoint: Endpoint, key: &[u8]) -> (r: Result<Identity, PacketError>)
        ensures
            r is Ok <==> is_valid_secret(key@),
            r is Err ==> r->Err_0 == PacketError::SigningError,
            r is Ok ==> r->Ok_0.endpoint == endpoint && r->Ok_0.private_key@ == key@
                && r->Ok_0.public_key@ == public_key_of(key@),
    {
        match public_key(key) {
            Ok(pk) => Ok(Identity { endpoint, private_key: slice_from(key, 0), public_key: pk }),
            Err(e) => Err(e),
        }
    }

    /// The wire packet of a ping from this identity to `target`, made at
    /// `now` seconds after the Unix epoch (`None` where the clock reads
    /// before the epoch). A receiver recovers this identity's public key from
    /// it and decodes the ping.
    pub fn ping_packet(&self, target: Endpoint, now: Option<u64>) -> (r: Result<
        Vec<u8>,
        PacketError,
    >)
        ensures
            now is None ==> r == Err::<Vec<u8>, PacketError>(PacketError::ClockError),
            now is Some && expiration_of(now->Some_0) is None ==> r == Err::<Vec<u8>, PacketError>(
                PacketError::ClockError,
            ),
            now is Some && expiration_of(now->Some_0) is Some && !is_valid_secret(
                self.private_key@,
            ) ==> r == Err::<Vec<u8>, PacketError>(PacketError::SigningError),
            now is Some && expiration_of(now->Some_0) is Some && is_valid_secret(self.private_key@)
                ==> ({
                let m = PingMessage {
                    from: self.endpoint,
                    to: target,
                    expiration: expiration_of(now->Some_0)->Some_0,
                };
                &&& r is Ok
                &&& r->Ok_0@ == signed_packet(self.private_key@, tagged_ping(m))
                &&& received(r->Ok_0@) == Ok::<(Seq<u8>, PingMessage), PacketError>(
                    (public_key_of(self.private_key@), m),
                )
            }),
    {
        let ping = match PingMessage::at_time(self.endpoint, target, now) {
            Ok(m) => m,
            Err(e) => return Err(e),
        };
        let message = tagged_message(&ping);
        let packet = match make_packet(self.private_key.as_slice(), message.as_slice()) {
            Ok(p) => p,
            Err(e) => return Err(e),
        };
        proof {
            lemma_signed_packet_received(self.private_key@, ping, packet@);
        }
        Ok(packet)
    }
}

/// Lifecycle of the service.
#[derive(Clone, Copy, Debug, PartialEq, Eq, Structural)]
pub enum ServiceState {
    Unbound,
    Bound,
    Listening,
    Terminated,
}

/// What happens to the service's socket.
#[derive(Clone, Copy, Debug, PartialEq, Eq, Structural)]
pub enum ServiceEvent {
    /// The socket was bound.
    SocketBound,
    /// The socket could not be bound.
    BindFailed,
    /// The receive loop started.
    ListenStarted,
    /// A receive failed while the socket stays open.
    ReceiveFailed,
    /// The socket was closed on purpose.
    SocketClosed,
}

impl ServiceState {
    /// The state after `event`. Terminated is final; a failed receive keeps
    /// the loop listening; closing the socket ends any state.
    pub fn step(self, event: ServiceEvent) -> (r: ServiceState)
        ensures
            self == ServiceState::Terminated ==> r == ServiceState::Terminated,
            event == ServiceEvent::SocketClosed ==> r == ServiceState::Terminated,
            self == ServiceState::Unbound && event == ServiceEvent::SocketBound ==> r
                == ServiceState::Bound,
            self == ServiceState::Unbound && event == ServiceEvent::BindFailed ==> r
                == ServiceState::Terminated,
            self == ServiceState::Bound && event == ServiceEvent::ListenStarted ==> r
                == ServiceState::Listening,
            self == ServiceState::Listening && event == ServiceEvent::ReceiveFailed ==> r
                == ServiceState::Listening,
            !(self == ServiceState::Unbound && (event == ServiceEvent::SocketBound || event
                == ServiceEvent::BindFailed)) && !(self == ServiceState::Bound && event
                == ServiceEvent::ListenStarted) && event != ServiceEvent::SocketClosed ==> r
                == self,
    {
        match (self, event) {
            (ServiceState::Terminated, _) => ServiceState::Terminated,
            (_, ServiceEvent::SocketClosed) => ServiceState::Terminated,
            (ServiceState::Unbound, ServiceEvent::SocketBound) => ServiceState::Bound,
            (ServiceState::Unbound, ServiceEvent::BindFailed) => ServiceState::Terminated,
            (ServiceState::Bound, ServiceEvent::ListenStarted) => ServiceState::Listening,
            (s, _) => s,
        }
    }

    /// Whether a receive loop runs in this state.
    pub fn is_listening(self) -> (r: bool)
        ensures
            r == (self == ServiceState::Listening),
    {
        match self {
            ServiceState::Listening => true,
            _ => false,
        }
    }
}

} // verus!
