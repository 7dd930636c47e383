//! The life of one signaling connection: registered when its transport is
//! upgraded, relaying each frame it receives to every other connection while
//! open, and unregistered when its transport fails or ends.

use vstd::prelude::*;
use tokio::sync::mpsc::UnboundedSender;
use crate::message::Frame;
use crate::registry::{Delivery, Registry};

verus! {

/// Where a connection stands. Before it is open it is not registered, and
/// nothing is kept of it.
#[derive(Clone, Copy, Debug, PartialEq, Eq, Structural)]
pub enum ConnectionState {
    Open,
    Closed,
}

/// What the transport of a connection reports.
#[derive(Debug)]
pub enum Event {
    /// A frame came in.
    Received(Frame),
    /// Reading failed.
    ReadFailed,
    /// The inbound stream ended.
    Ended,
    /// Writing to the peer failed.
    WriteFailed,
}

/// One signaling connection, by its id in the registry.
pub struct SignalConnection {
    id: u64,
    state: ConnectionState,
}

impl SignalConnection {
    pub closed spec fn spec_id(&self) -> u64 {
        self.id
    }

    pub closed spec fn spec_state(&self) -> ConnectionState {
        self.state
    }

    /// Registers a freshly upgraded connection under a fresh random id.
    pub fn open(registry: &mut Registry, outbound: UnboundedSender<Frame>) -> (c: SignalConnection)
        requires
            old(registry).wf(),
        ensures
            final(registry).wf(),
            c.spec_state() == ConnectionState::Open,
            !old(registry).ids().contains(c.spec_id()),
            final(registry).ids() == old(registry).ids().push(c.spec_id()),
            final(registry).accepted() == old(registry).accepted().insert(c.spec_id(), Seq::empty()),
    {
        let id = registry.connect(outbound);
        SignalConnection { id, state: ConnectionState::Open }
    }

    /// The connection's id.
    pub fn id(&self) -> (r: u64)
        ensures
            r == self.spec_id(),
    {
        self.id
    }

    /// Where the connection stands.
    pub fn state(&self) -> (r: ConnectionState)
        ensures
            r == self.spec_state(),
    {
        self.state
    }

    /// Handles what the transport reported. While open, a received frame is
    /// relayed, undecoded, to every other connection and the connection stays
    /// open; any failure or the end of the stream unregisters it and closes
    /// it. A closed connection ignores everything. Returns what the relay did,
    /// empty when nothing was relayed.
    pub fn on_event(&mut self, registry: &mut Registry, event: Event) -> (report: Vec<Delivery>)
        requires
            old(registry).wf(),
        ensures
            final(registry).wf(),
            final(self).spec_id() == old(self).spec_id(),
            old(self).spec_state() == ConnectionState::Closed ==> {
                &&& final(self).spec_state() == ConnectionState::Closed
                &&& *final(registry) == *old(registry)
                &&& report@.len() == 0
            },
            old(self).spec_state() == ConnectionState::Open ==> match event {
                Event::Received(f) => {
                    &&& final(self).spec_state() == ConnectionState::Open
                    &&& old(registry).relays(*final(registry), old(self).spec_id(), f@, report@)
                },
                _ => {
                    &&& final(self).spec_state() == ConnectionState::Closed
                    &&& old(registry).unregisters(*final(registry), old(self).spec_id())
                    &&& report@.len() == 0
                },
            },
    {
        match self.state {
            ConnectionState::Closed => Vec::new(),
            ConnectionState::Open => match event {
                Event::Received(frame) => registry.broadcast_except(self.id, &frame),
                _ => {
                    registry.unregister(self.id);
                    self.state = ConnectionState::Closed;
                    Vec::new()
                },
            },
        }
    }
}

} // verus!
