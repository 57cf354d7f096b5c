//! Client-side implementation of the protocol engine.
//!
//! The backend owns the one connection of a client. It creates ids for the
//! objects that requests create, queues encoded requests, and turns the bytes
//! that the server sent into deliveries for the user's objects.

use crate::core_interfaces::{wl_display_interface, wl_registry_interface, DISPLAY_ID, REGISTRY_ID};
use crate::protocol::{arg_views, Argument, Interface};
use crate::rs::connection::{Connection, Delivery, Taken};
use crate::rs::map::{InvalidId, Object, Role, Slot, UserData};
use crate::rs::server_impl::{InnerClientId, InnerObjectId};
use crate::rs::socket::{TransportError, WritePlan, MAX_FDS_IN};
use crate::rs::wire::HEADER_LEN;
use crate::types::{ProtocolError, SendError};
use vstd::prelude::*;

verus! {

/// What the user attaches to an object of a client connection: the handling
/// of the events addressed to the object.
pub trait ObjectData<S>: Clone {
    /// Handles an event addressed to the object. The backend may be used to
    /// send requests; they are queued and leave once the dispatch pass is
    /// over. Where the event created objects, the value returned is attached
    /// to the first of them.
    fn event(&self, backend: &mut InnerBackend<Self>, state: &mut S, delivery: Delivery) -> (reply:
        Option<Self>)
        requires
            old(backend).wf(),
        ensures
            final(backend).wf(),
    ;

    /// Notes that the object was destroyed.
    fn destroyed(&self, state: &mut S, object: InnerObjectId);

    /// Says in a few words what the data is, for logs.
    fn describe(&self) -> (text: String);
}

/// The state of a client connection.
#[derive(Debug)]
pub struct InnerBackend<D> {
    conn: Connection<D>,
}

/// The id under which a client keeps its own objects.
pub open spec fn local_client() -> InnerClientId {
    InnerClientId { id: 0, serial: 0 }
}

impl<D> InnerBackend<D> {
    /// The connection that the backend drives.
    pub closed spec fn conn(&self) -> Connection<D> {
        self.conn
    }

    /// The backend is well formed: so is its connection, whose role is that
    /// of the client.
    pub open spec fn wf(&self) -> bool {
        &&& self.conn().wf()
        &&& self.conn().role == Role::Client
        &&& self.conn().table.owner() == local_client()
    }

    /// Starts a connection: the table holds the display as id 1 and the
    /// registry as id 2, with the data given, and nothing is buffered.
    pub fn connect(display: D, registry: D) -> (r: (Self, InnerObjectId, InnerObjectId))
        ensures
            r.0.wf(),
            r.0.conn().table@ == Map::<u32, Slot<D>>::empty().insert(
                DISPLAY_ID,
                Slot {
                    serial: 1,
                    object: Some(
                        Object {
                            interface: r.1.interface,
                            version: 1,
                            data: UserData::Installed(display),
                        },
                    ),
                },
            ).insert(
                REGISTRY_ID,
                Slot {
                    serial: 1,
                    object: Some(
                        Object {
                            interface: r.2.interface,
                            version: 1,
                            data: UserData::Installed(registry),
                        },
                    ),
                },
            ),
            r.1 == (InnerObjectId {
                id: DISPLAY_ID,
                serial: 1,
                client_id: local_client(),
                interface: r.1.interface,
            }),
            r.2 == (InnerObjectId {
                id: REGISTRY_ID,
                serial: 1,
                client_id: local_client(),
                interface: r.2.interface,
            }),
            r.1.interface.name@ == "wl_display"@,
            r.2.interface.name@ == "wl_registry"@,
            r.0.conn().table.valid(r.1),
            r.0.conn().table.valid(r.2),
            r.0.conn().socket.idle(),
    {
        let mut conn = Connection::new(Role::Client, InnerClientId { id: 0, serial: 0 });
        let display_id = match conn.table.allocate(
            Role::Client,
            Some(DISPLAY_ID),
            wl_display_interface(),
            1,
            UserData::Installed(display),
        ) {
            Ok(handle) => handle,
            Err(_) => {
                assert(false);
                InnerObjectId {
                    id: 0,
                    serial: 0,
                    client_id: InnerClientId { id: 0, serial: 0 },
                    interface: wl_display_interface(),
                }
            },
        };
        let registry_id = match conn.table.allocate(
            Role::Client,
            Some(REGISTRY_ID),
            wl_registry_interface(),
            1,
            UserData::Installed(registry),
        ) {
            Ok(handle) => handle,
            Err(_) => {
                assert(false);
                InnerObjectId {
                    id: 0,
                    serial: 0,
                    client_id: InnerClientId { id: 0, serial: 0 },
                    interface: wl_registry_interface(),
                }
            },
        };
        (InnerBackend { conn }, display_id, registry_id)
    }

    /// The connection, to look at.
    pub fn connection(&self) -> (conn: &Connection<D>)
        ensures
            *conn == self.conn(),
    {
        &self.conn
    }

    /// Takes in what one read from the socket brought. Fails, and takes in
    /// nothing, exactly where the descriptors would be more than may wait.
    pub fn receive(&mut self, bytes: &[u8], fds: &[i32]) -> (r: Result<(), TransportError>)
        requires
            old(self).wf(),
        ensures
            final(self).wf(),
            final(self).conn().table == old(self).conn().table,
            final(self).conn().socket.same_output(&old(self).conn().socket),
            match r {
                Ok(()) => {
                    &&& old(self).conn().socket.received_fds().len() + fds@.len() <= MAX_FDS_IN
                    &&& final(self).conn().socket.received_bytes() == old(
                        self
                    ).conn().socket.received_bytes() + bytes@
                    &&& final(self).conn().socket.received_fds() == old(
                        self
                    ).conn().socket.received_fds() + fds@
                },
                Err(e) => {
                    &&& e == TransportError::FdOverflow
                    &&& old(self).conn().socket.received_fds().len() + fds@.len() > MAX_FDS_IN
                    &&& final(self).conn().socket.same_input(&old(self).conn().socket)
                },
            },
    {
        self.conn.socket.receive(bytes, fds)
    }

    /// What the next write offers to the socket, if anything is queued.
    pub fn next_write(&self) -> (plan: Option<WritePlan<'_>>)
        requires
            self.wf(),
        ensures
            match plan {
                Some(p) => {
                    &&& p.bytes@ == self.conn().socket.plan_bytes()
                    &&& p.fds@ == self.conn().socket.plan_fds()
                    &&& p.bytes@.len() > 0
                },
                None => self.conn().socket.segments().len() == 0,
            },
    {
        self.conn.socket.next_write()
    }

    /// Records that a write carried the first `n` bytes of its plan.
    pub fn wrote(&mut self, n: usize)
        requires
            old(self).wf(),
            n <= old(self).conn().socket.plan_bytes().len(),
        ensures
            final(self).wf(),
            final(self).conn().table == old(self).conn().table,
            final(self).conn().socket.same_input(&old(self).conn().socket),
            final(self).conn().socket.pending_bytes() == old(self).conn().socket.pending_bytes().skip(
                n as int,
            ),
            n == 0 ==> final(self).conn().socket.pending_fds() == old(self).conn().socket.pending_fds(),
            n > 0 ==> final(self).conn().socket.pending_fds() == old(
                self
            ).conn().socket.pending_fds().skip(old(self).conn().socket.plan_fds().len() as int),
    {
        self.conn.socket.wrote(n)
    }

    /// Sends a request from the object `target`. See [`Connection::send`]:
    /// every object that the request creates gets the lowest id of the
    /// client's range that is free when its turn comes.
    pub fn send_request(
        &mut self,
        target: &InnerObjectId,
        opcode: u16,
        args: Vec<Argument>,
        child: Option<&'static Interface>,
        child_data: UserData<D>,
    ) -> (r: Result<Vec<InnerObjectId>, SendError>)
        requires
            old(self).wf(),
        ensures
            final(self).wf(),
            final(self).conn().table.follows(&old(self).conn().table),
            final(self).conn().socket.same_input(&old(self).conn().socket),
            final(self).conn().sent(
                &old(self).conn(),
                *target,
                opcode,
                arg_views(args@),
                child,
                child_data,
                r,
            ),
    {
        self.conn.send(target, opcode, args, child, child_data)
    }

    /// Takes the next event from the input, if a whole one is there. See
    /// [`Connection::next_message`]: every object that the event creates
    /// must bear an id of the server's range.
    pub fn next_event(&mut self) -> (r: Result<Option<Delivery>, ProtocolError>)
        requires
            old(self).wf(),
        ensures
            final(self).wf(),
            final(self).conn().table.follows(&old(self).conn().table),
            final(self).conn().socket.same_output(&old(self).conn().socket),
            match old(self).conn().peek_spec() {
                Ok(None) => final(self).conn().waited(&old(self).conn(), r),
                Err(e) => final(self).conn().refused(&old(self).conn(), r, e),
                Ok(Some(pending)) => {
                    &&& old(self).conn().table.valid(pending.target)
                    &&& final(self).conn().took(
                        &old(self).conn(),
                        r,
                        pending,
                        old(self).conn().next_spec(),
                    )
                },
            },
    {
        self.conn.next_message()
    }

    /// Completes the handling of a delivered event. See
    /// [`Connection::finish`]: a destructor event retires its target.
    pub fn finish_event(
        &mut self,
        target: &InnerObjectId,
        is_destructor: bool,
        created: Option<InnerObjectId>,
        data: Option<D>,
    ) -> (retired: Option<Object<D>>)
        requires
            old(self).wf(),
        ensures
            final(self).wf(),
            final(self).conn().socket == old(self).conn().socket,
            final(self).conn().table.follows(&old(self).conn().table),
            final(self).conn().finished(
                &old(self).conn(),
                *target,
                is_destructor,
                created,
                data,
                retired,
            ),
    {
        self.conn.finish(target, is_destructor, created, data)
    }

    /// Attaches the user's data to an object, replacing what was attached
    /// before. This is how the objects that a message created beside the
    /// first get their data.
    pub fn install(&mut self, handle: &InnerObjectId, data: D) -> (r: Result<(), InvalidId>)
        requires
            old(self).wf(),
        ensures
            final(self).wf(),
            final(self).conn().socket == old(self).conn().socket,
            final(self).conn().table.follows(&old(self).conn().table),
            match r {
                Ok(()) => {
                    &&& old(self).conn().table.valid(*handle)
                    &&& final(self).conn().table@ == old(self).conn().installed(
                        Some(*handle),
                        Some(data),
                    )
                },
                Err(_) => {
                    &&& !old(self).conn().table.valid(*handle)
                    &&& final(self).conn().table@ == old(self).conn().table@
                },
            },
    {
        self.conn.table.install(handle, data)
    }

    /// Number of bytes received and not yet decoded.
    pub fn buffered(&self) -> (n: usize)
        ensures
            n == self.conn().socket.received_bytes().len(),
    {
        self.conn.socket.input().len()
    }

    /// Delivers the events that are buffered to the objects they are
    /// addressed to, in the order of their arrival, and returns their number.
    ///
    /// The pass handles what was buffered when it began; what arrives
    /// meanwhile waits for the next pass. It ends at the first incomplete
    /// message. A violation of the protocol by the server ends it with the
    /// error, which is fatal for the connection.
    ///
    /// Where no whole message is at the front of the input, nothing is
    /// delivered and nothing changes, the user's state included. Where the
    /// message at the front is a violation, the pass fails with it and
    /// nothing changes either. Where it is
    /// delivered, what follows is up to the object that handles it; a pass
    /// that succeeds has then delivered at least this message.
    pub fn dispatch_pending<S>(&mut self, state: &mut S) -> (r: Result<usize, ProtocolError>) where
        D: ObjectData<S>,

        requires
            old(self).wf(),
        ensures
            final(self).wf(),
            r matches Ok(count) ==> count * HEADER_LEN <= old(
                self
            ).conn().socket.received_bytes().len(),
            match old(self).conn().next_spec() {
                Taken::Wait => {
                    &&& r matches Ok(count)
                    &&& count == 0
                    &&& final(self).conn().untouched(&old(self).conn())
                    &&& final(self).conn().socket.same_output(&old(self).conn().socket)
                    &&& *final(state) == *old(state)
                },
                Taken::Fail(e) => {
                    &&& r matches Err(x)
                    &&& x == e
                    &&& final(self).conn().untouched(&old(self).conn())
                    &&& final(self).conn().socket.same_output(&old(self).conn().socket)
                    &&& *final(state) == *old(state)
                },
                Taken::Deliver { .. } => r matches Ok(count) ==> count >= 1,
            },
    {
        let budget: usize = self.buffered();
        let mut remaining: usize = budget;
        let mut count: usize = 0;
        while remaining >= HEADER_LEN
            invariant
                self.wf(),
                budget == old(self).conn().socket.received_bytes().len(),
                count * HEADER_LEN + remaining <= budget,
                count == 0 ==> *self == *old(self) && *state == *old(state) && remaining == budget,
                count > 0 ==> old(self).conn().next_spec() is Deliver,
            decreases remaining,
        {
            let before: usize = self.buffered();
            let delivery = match self.next_event() {
                Err(e) => {
                    return Err(e);
                },
                Ok(None) => {
                    return Ok(count);
                },
                Ok(Some(delivery)) => delivery,
            };
            let used: usize = before - self.buffered();
            remaining = if used <= remaining {
                remaining - used
            } else {
                0
            };
            let target = delivery.target;
            let created = if delivery.created.len() > 0 {
                Some(delivery.created[0])
            } else {
                None
            };
            let is_destructor = delivery.is_destructor;
            let data = match self.conn.table.get(&target) {
                Some(object) => match &object.data {
                    UserData::Installed(data) => data.clone(),
                    UserData::Uninitialized => {
                        return Err(ProtocolError::UninitializedObject);
                    },
                },
                None => {
                    return Err(ProtocolError::UnknownObject);
                },
            };
            let reply = data.event(self, state, delivery);
            match self.finish_event(&target, is_destructor, created, reply) {
                Some(object) => match object.data {
                    UserData::Installed(gone) => {
                        gone.destroyed(state, target);
                    },
                    UserData::Uninitialized => {},
                },
                None => {},
            }
            count = count + 1;
        }
        Ok(count)
    }
}

} // verus!
