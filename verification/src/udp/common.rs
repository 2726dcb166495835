use vstd::prelude::*;

verus! {

/// The two delivery classes that a sender can choose from.
#[derive(Debug, Clone, Copy, PartialEq, Eq, Structural)]
pub enum TransferChannel {
    Reliable,
    Unreliable,
}

/// What the transport reports to the relay.
#[derive(Debug, Clone, PartialEq, Eq)]
pub enum ServerEvent {
    ClientConnected { client_id: u64 },
    ClientDisconnected { client_id: u64 },
    PacketReceived { client_id: u64, data: Vec<u8>, channel: TransferChannel },
}

/// A `ServerEvent` as mathematics sees it.
pub enum ServerEventView {
    ClientConnected { client_id: u64 },
    ClientDisconnected { client_id: u64 },
    PacketReceived { client_id: u64, data: Seq<u8>, channel: TransferChannel },
}

impl View for ServerEvent {
    type V = ServerEventView;

    open spec fn view(&self) -> ServerEventView {
        match self {
            ServerEvent::ClientConnected { client_id } => ServerEventView::ClientConnected {
                client_id: *client_id,
            },
            ServerEvent::ClientDisconnected { client_id } => ServerEventView::ClientDisconnected {
                client_id: *client_id,
            },
            ServerEvent::PacketReceived { client_id, data, channel } => ServerEventView::PacketReceived {
                client_id: *client_id,
                data: data@,
                channel: *channel,
            },
        }
    }
}

} // verus!
