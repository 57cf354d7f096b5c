//! The state of a server: its clients and its globals.
//!
//! Every client has a connection of its own. What happens on one of them,
//! a violation of the protocol and the disconnection that follows included,
//! leaves the others and the globals as they were.

use crate::core_interfaces::{REGISTRY_GLOBAL, REGISTRY_GLOBAL_REMOVE, REGISTRY_ID};
use crate::protocol::{arg_views, Argument, ArgumentType, ArgumentView, Interface, MessageView};
use crate::rs::connection::{Delivery, Taken};
use crate::rs::map::{InvalidId, Object, UserData};
use crate::rs::server_impl::client::{
    global_args, lemma_no_descriptors, lemma_registry_events_create_nothing, Client,
};
use crate::rs::server_impl::registry::{Global, Registry, MAX_GLOBALS};
use crate::rs::server_impl::{InnerClientId, InnerGlobalId, InnerObjectId};
use crate::rs::socket::{TransportError, MAX_FDS_IN};
use crate::rs::wire::{args_bytes, message_bytes, HEADER_LEN, MAX_MESSAGE_LEN};
use crate::types::{Credentials, DisconnectReason, GlobalError, ProtocolError, SendError};
use vstd::prelude::*;

verus! {

/// What the user attaches to an object of a server: the handling of the
/// requests addressed to the object.
pub trait ObjectData<S>: Clone {
    /// Handles a request addressed to the object. The handle may be used to
    /// send events, to any client; they are queued and leave once the
    /// dispatch pass is over. Where the request created objects, the value
    /// returned is attached to the first of them.
    fn request(
        &self,
        handle: &mut InnerHandle<Self>,
        state: &mut S,
        client: InnerClientId,
        delivery: Delivery,
    ) -> (reply: Option<Self>)
        requires
            old(handle).wf(),
        ensures
            final(handle).wf(),
    ;

    /// Notes that the object was destroyed.
    fn destroyed(&self, state: &mut S, client: InnerClientId, object: InnerObjectId);

    /// Says in a few words what the data is, for logs.
    fn describe(&self) -> (text: String);
}

/// Greatest number of client slots that a server holds.
pub const MAX_CLIENTS: usize = 0xFFFF_FFFF;

/// What the server keeps for one client number.
#[derive(Debug)]
struct ClientSlot<D> {
    /// Counts the clients that the number has had.
    serial: u32,
    client: Option<Client<D>>,
}

/// The state of a server.
#[derive(Debug)]
pub struct InnerHandle<D> {
    clients: Vec<ClientSlot<D>>,
    registry: Registry,
}

/// What is left of a client that was disconnected.
#[derive(Debug)]
pub struct Disconnected<D> {
    pub client_id: InnerClientId,
    pub reason: DisconnectReason,
    pub credentials: Credentials,
    /// The objects that the client had, in the order of their ids.
    pub objects: Vec<(InnerObjectId, Object<D>)>,
}

/// The bytes that announce one global: its `global` event from the registry
/// object, or nothing where the global is withdrawn or its event would not
/// fit a message.
pub open spec fn announcement(global: Global) -> Seq<u8> {
    if global.active && HEADER_LEN + args_bytes(global_args(global)).len() <= MAX_MESSAGE_LEN {
        message_bytes(
            MessageView {
                sender_id: REGISTRY_ID,
                opcode: REGISTRY_GLOBAL,
                args: global_args(global),
            },
        )
    } else {
        Seq::empty()
    }
}

/// The bytes that announce a run of globals, one after the other.
pub open spec fn announcements(globals: Seq<Global>) -> Seq<u8>
    decreases globals.len(),
{
    if globals.len() == 0 {
        Seq::empty()
    } else {
        announcements(globals.drop_last()) + announcement(globals.last())
    }
}

/// Takes the client out of a slot and leaves the slot vacant.
fn take_client<D>(clients: &mut Vec<ClientSlot<D>>, index: usize) -> (client: Option<Client<D>>)
    requires
        index < old(clients)@.len(),
    ensures
        client == old(clients)@[index as int].client,
        final(clients)@ == old(clients)@.update(
            index as int,
            ClientSlot { serial: old(clients)@[index as int].serial, client: None },
        ),
{
    let slot = &mut clients[index];
    slot.client.take()
}

/// Puts a client in a slot.
fn put_client<D>(clients: &mut Vec<ClientSlot<D>>, index: usize, client: Client<D>)
    requires
        index < old(clients)@.len(),
    ensures
        final(clients)@ == old(clients)@.update(
            index as int,
            ClientSlot { serial: old(clients)@[index as int].serial, client: Some(client) },
        ),
{
    let serial: u32 = clients[index].serial;
    clients.set(index, ClientSlot { serial, client: Some(client) });
}

impl<D> InnerHandle<D> {
    /// The client that the id names, if it is connected.
    pub closed spec fn client(&self, id: InnerClientId) -> Option<Client<D>> {
        if id.id < self.clients@.len() && self.clients@[id.id as int].serial == id.serial {
            self.clients@[id.id as int].client
        } else {
            None
        }
    }

    /// The globals of the server.
    pub closed spec fn registry(&self) -> Registry {
        self.registry
    }

    /// The serial that a client number has reached: the number of clients
    /// that have been accepted under it, the present one included; 0 for a
    /// number that was never used. It is the serial of the id of the client
    /// that is connected under the number, if one is, and it stays when that
    /// client is disconnected.
    pub closed spec fn client_serial(&self, number: u32) -> nat {
        if number < self.clients@.len() {
            self.clients@[number as int].serial as nat
        } else {
            0
        }
    }

    /// Every client number has the serial that it had in `before`.
    pub open spec fn serials_kept(&self, before: &InnerHandle<D>) -> bool {
        forall|number: u32| #[trigger] self.client_serial(number) == before.client_serial(number)
    }

    /// Number of client numbers that have been used.
    pub closed spec fn slots(&self) -> nat {
        self.clients@.len()
    }

    /// No client number is left for a new client.
    pub closed spec fn full(&self) -> bool {
        &&& self.clients@.len() == MAX_CLIENTS
        &&& forall|i: int|
            0 <= i < self.clients@.len() ==> (#[trigger] self.clients@[i]).client is Some
                || self.clients@[i].serial == u32::MAX
    }

    /// The state is well formed. Every value that this module hands out is,
    /// and every operation keeps it so.
    pub closed spec fn wf(&self) -> bool {
        &&& self.registry.wf()
        &&& self.clients@.len() <= MAX_CLIENTS
        &&& forall|i: int|
            0 <= i < self.clients@.len() ==> match (#[trigger] self.clients@[i]).client {
                Some(client) => client.wf() && client.id == (InnerClientId {
                    id: i as u32,
                    serial: self.clients@[i].serial,
                }),
                None => true,
            }
    }

    /// Every client but `id` is as it was in `before`.
    pub open spec fn others_untouched(&self, before: &InnerHandle<D>, id: InnerClientId) -> bool {
        forall|other: InnerClientId| other != id ==> #[trigger] self.client(other) == before.client(other)
    }

    /// This state is what accepting a client under the id `id` makes of
    /// `before`: the id was free and bears the serial that follows the one
    /// its number had reached, so that it was never given out before; the
    /// globals and the other clients are as they were, and the new client
    /// has been told of every global that is advertised.
    pub open spec fn after_accept(&self, before: &InnerHandle<D>, id: InnerClientId) -> bool {
        &&& before.client(id) is None
        &&& id.serial == before.client_serial(id.id) + 1
        &&& self.client_serial(id.id) == id.serial
        &&& forall|number: u32|
            number != id.id ==> #[trigger] self.client_serial(number) == before.client_serial(
                number,
            )
        &&& self.registry() == before.registry()
        &&& self.others_untouched(before, id)
        &&& self.client(id) matches Some(client) && client.conn.socket.pending_bytes()
            == announcements(before.registry()@)
    }

    /// This state is what disconnecting the client `id` makes of `before`:
    /// the client is gone, its number keeps its serial, and the globals and
    /// the other clients are as they were.
    pub open spec fn after_disconnect(&self, before: &InnerHandle<D>, id: InnerClientId) -> bool {
        &&& self.serials_kept(before)
        &&& self.registry() == before.registry()
        &&& self.client(id) is None
        &&& self.others_untouched(before, id)
    }

    /// A server without clients and without globals.
    pub fn new() -> (handle: Self)
        ensures
            handle.wf(),
            handle.slots() == 0,
            !handle.full(),
            handle.registry()@ == Seq::<Global>::empty(),
            forall|id: InnerClientId| handle.client(id) is None,
            forall|number: u32| handle.client_serial(number) == 0,
    {
        InnerHandle { clients: Vec::new(), registry: Registry::new() }
    }

    /// A connected client is well formed and bears the id under which it is
    /// kept, whose serial is the one that its number has reached; a server
    /// that is full has used all its client numbers.
    pub proof fn lemma_client(&self, id: InnerClientId)
        requires
            self.wf(),
        ensures
            self.registry().wf(),
            self.client(id) matches Some(client) ==> client.wf() && client.id == id,
            self.client(id) is Some ==> id.serial == self.client_serial(id.id),
            self.full() ==> self.slots() == MAX_CLIENTS,
            self.slots() <= MAX_CLIENTS,
    {
    }

    /// The globals, to look at.
    pub fn globals(&self) -> (registry: &Registry)
        ensures
            *registry == self.registry(),
    {
        &self.registry
    }

    /// The client that the id names, to look at.
    pub fn client_ref(&self, id: &InnerClientId) -> (r: Option<&Client<D>>)
        ensures
            match r {
                Some(client) => self.client(*id) == Some(*client),
                None => self.client(*id) is None,
            },
    {
        if id.id as usize >= self.clients.len() {
            return None;
        }
        let slot = &self.clients[id.id as usize];
        if slot.serial != id.serial {
            return None;
        }
        match &slot.client {
            Some(client) => Some(client),
            None => None,
        }
    }

    /// Index of the first slot that can take a new client: a vacant one
    /// whose serial can still grow, or the one behind the last.
    fn free_slot(&self) -> (r: Option<usize>)
        requires
            self.wf(),
        ensures
            match r {
                Some(index) => {
                    &&& index <= self.clients@.len()
                    &&& index < MAX_CLIENTS
                    &&& index < self.clients@.len() ==> self.clients@[index as int].client is None
                        && self.clients@[index as int].serial < u32::MAX
                },
                None => self.full(),
            },
    {
        let mut index: usize = 0;
        while index < self.clients.len()
            invariant
                0 <= index <= self.clients@.len(),
                self.clients@.len() <= MAX_CLIENTS,
                forall|i: int|
                    0 <= i < index ==> (#[trigger] self.clients@[i]).client is Some
                        || self.clients@[i].serial == u32::MAX,
            decreases self.clients@.len() - index,
        {
            if self.clients[index].client.is_none() && self.clients[index].serial < u32::MAX {
                return Some(index);
            }
            index += 1;
        }
        if index < MAX_CLIENTS {
            Some(index)
        } else {
            None
        }
    }

    /// Accepts a client.
    ///
    /// The client gets a table of its own, with the display as id 1 and the
    /// registry as id 2, and the credentials given. Every global that is
    /// advertised is announced to it: the events wait in its output queue,
    /// and nothing is written. The other clients and the globals stay as
    /// they are. Returns `None`, and changes nothing, where the server is
    /// full.
    pub fn accept(&mut self, credentials: Credentials, display: D, registry: D) -> (r: Option<
        InnerClientId,
    >)
        requires
            old(self).wf(),
        ensures
            final(self).wf(),
            final(self).registry() == old(self).registry(),
            final(self).slots() <= old(self).slots() + 1,
            r is None <==> old(self).full(),
            match r {
                Some(id) => {
                    &&& final(self).after_accept(old(self), id)
                    &&& final(self).client(id) matches Some(client)
                    &&& client.id == id
                    &&& client.credentials == credentials
                    &&& client.conn.table@.dom() =~= set![1u32, 2u32]
                    &&& client.conn.table@[1].serial == 1
                    &&& client.conn.table@[2].serial == 1
                    &&& client.conn.table@[1].object matches Some(object) && object.data
                        == UserData::Installed(display) && object.interface.name@ == "wl_display"@
                    &&& client.conn.table@[2].object matches Some(object) && object.data
                        == UserData::Installed(registry) && object.interface.name@
                        == "wl_registry"@
                    &&& client.conn.socket.received_bytes() == Seq::<u8>::empty()
                    &&& client.conn.socket.received_fds() == Seq::<i32>::empty()
                    &&& client.conn.socket.pending_bytes() == announcements(old(self).registry()@)
                    &&& client.conn.socket.pending_fds() == Seq::<i32>::empty()
                },
                None => {
                    &&& final(self).serials_kept(old(self))
                    &&& forall|id: InnerClientId| #[trigger]
                        final(self).client(id) == old(self).client(id)
                },
            },
    {
        let index = match self.free_slot() {
            None => {
                return None;
            },
            Some(index) => index,
        };
        let serial: u32 = if index < self.clients.len() {
            self.clients[index].serial + 1
        } else {
            1
        };
        let id = InnerClientId { id: index as u32, serial };
        let mut client = Client::new(id, credentials, display, registry);
        let ghost table = client.conn.table@;
        let ghost interface = table[REGISTRY_ID].object->0.interface;
        let all = self.registry.globals();
        let mut i: usize = 0;
        proof {
            assert(client.conn.socket.pending_bytes() =~= Seq::<u8>::empty());
            assert(client.conn.socket.pending_fds() =~= Seq::<i32>::empty());
            assert(all@.take(0) =~= Seq::<Global>::empty());
        }
        while i < all.len()
            invariant
                0 <= i <= all@.len(),
                client.wf(),
                client.id == id,
                client.credentials == credentials,
                client.conn.table@ == table,
                table.contains_key(REGISTRY_ID),
                table[REGISTRY_ID].object is Some,
                table[REGISTRY_ID].serial == 1,
                interface == table[REGISTRY_ID].object->0.interface,
                interface.name@ == "wl_registry"@,
                interface.events@.len() == 2,
                interface.events@[0].signature@ == seq![
                    ArgumentType::Uint,
                    ArgumentType::Str,
                    ArgumentType::Uint,
                ],
                !interface.events@[0].is_destructor,
                client.conn.socket.received_bytes() == Seq::<u8>::empty(),
                client.conn.socket.received_fds() == Seq::<i32>::empty(),
                client.conn.socket.pending_bytes() == announcements(all@.take(i as int)),
                client.conn.socket.pending_fds() == Seq::<i32>::empty(),
            decreases all@.len() - i,
        {
            let global = all[i];
            proof {
                assert(all@.take(i as int + 1).drop_last() =~= all@.take(i as int));
                assert(all@.take(i as int + 1).last() == global);
                lemma_registry_events_create_nothing(global, 0);
                lemma_no_descriptors(global_args(global));
            }
            if global.active {
                let ghost before = client;
                let sent = client.announce(&global);
                proof {
                    let target = before.registry_object()->0;
                    assert(before.conn.table.valid(target));
                    assert(crate::rs::connection::outbound(before.conn.role, interface)
                        =~= interface.events@);
                    assert(crate::rs::wire::args_fit(
                        global_args(global),
                        interface.events@[0].signature@,
                    ));
                    if !sent {
                        assert(client.conn.socket.pending_bytes()
                            =~= before.conn.socket.pending_bytes());
                        assert(client.conn.socket.pending_fds()
                            =~= before.conn.socket.pending_fds());
                    }
                }
            } else {
                assert(announcements(all@.take(i as int + 1)) =~= announcements(
                    all@.take(i as int),
                ));
            }
            i += 1;
        }
        assert(all@.take(i as int) =~= all@);
        if index < self.clients.len() {
            self.clients.set(index, ClientSlot { serial, client: Some(client) });
        } else {
            self.clients.push(ClientSlot { serial, client: Some(client) });
        }
        Some(id)
    }

    /// Disconnects a client.
    ///
    /// Every object of the client is retired and returned, in the order of
    /// the ids, so that the destruction of each can be notified once. The
    /// other clients keep their tables, their input and their output, and the
    /// globals stay advertised. Returns `None`, and changes nothing, where
    /// the id names no connected client.
    pub fn disconnect(&mut self, id: &InnerClientId, reason: DisconnectReason) -> (r: Option<
        Disconnected<D>,
    >)
        requires
            old(self).wf(),
        ensures
            final(self).wf(),
            final(self).after_disconnect(old(self), *id),
            final(self).slots() == old(self).slots(),
            final(self).serials_kept(old(self)),
            match r {
                Some(gone) => {
                    &&& old(self).client(*id) matches Some(client)
                    &&& gone.client_id == *id
                    &&& gone.reason == reason
                    &&& gone.credentials == client.credentials
                    &&& forall|k: int|
                        0 <= k < gone.objects@.len() ==> client.conn.table.valid(
                            (#[trigger] gone.objects@[k]).0,
                        ) && gone.objects@[k].1 == client.conn.table@[gone.objects@[k].0.id].object->0
                    &&& forall|k1: int, k2: int|
                        0 <= k1 < k2 < gone.objects@.len() ==> (#[trigger] gone.objects@[k1]).0.id
                            < (#[trigger] gone.objects@[k2]).0.id
                    &&& forall|object: u32|
                        client.conn.table.live(object) ==> exists|k: int|
                            0 <= k < gone.objects@.len() && (#[trigger] gone.objects@[k]).0.id
                                == object
                },
                None => old(self).client(*id) is None,
            },
    {
        if id.id as usize >= self.clients.len() || self.clients[id.id as usize].serial
            != id.serial {
            return None;
        }
        match take_client(&mut self.clients, id.id as usize) {
            None => None,
            Some(client) => {
                let mut client = client;
                let objects = client.conn.table.retire_all();
                Some(
                    Disconnected {
                        client_id: *id,
                        reason,
                        credentials: client.credentials,
                        objects,
                    },
                )
            },
        }
    }

    /// Takes a client out of its slot, to work on it.
    fn checkout(&mut self, id: &InnerClientId) -> (r: Option<Client<D>>)
        requires
            old(self).wf(),
        ensures
            final(self).wf(),
            final(self).registry == old(self).registry,
            final(self).serials_kept(old(self)),
            r == old(self).client(*id),
            match r {
                Some(client) => {
                    &&& client.wf()
                    &&& client.id == *id
                    &&& id.id < old(self).clients@.len()
                    &&& final(self).clients@ == old(self).clients@.update(
                        id.id as int,
                        ClientSlot { serial: id.serial, client: None },
                    )
                },
                None => final(self).clients@ == old(self).clients@,
            },
    {
        if id.id as usize >= self.clients.len() || self.clients[id.id as usize].serial
            != id.serial {
            return None;
        }
        let taken = take_client(&mut self.clients, id.id as usize);
        if taken.is_none() {
            assert(self.clients@ =~= old(self).clients@);
        }
        taken
    }

    /// Puts a client back in its slot.
    fn checkin(&mut self, client: Client<D>)
        requires
            old(self).wf(),
            client.wf(),
            client.id.id < old(self).clients@.len(),
            old(self).clients@[client.id.id as int].serial == client.id.serial,
        ensures
            final(self).wf(),
            final(self).registry == old(self).registry,
            final(self).serials_kept(old(self)),
            final(self).clients@ == old(self).clients@.update(
                client.id.id as int,
                ClientSlot { serial: client.id.serial, client: Some(client) },
            ),
    {
        put_client(&mut self.clients, client.id.id as usize, client);
    }

    /// Takes in what one read from the socket of a client brought. Fails,
    /// and takes in nothing, exactly where the descriptors would be more than
    /// may wait. Returns `None` where the id names no connected client.
    pub fn receive(&mut self, id: &InnerClientId, bytes: &[u8], fds: &[i32]) -> (r: Option<
        Result<(), TransportError>,
    >)
        requires
            old(self).wf(),
        ensures
            final(self).wf(),
            final(self).registry() == old(self).registry(),
            final(self).slots() == old(self).slots(),
            final(self).serials_kept(old(self)),
            final(self).others_untouched(old(self), *id),
            match old(self).client(*id) {
                None => r is None && final(self).client(*id) is None,
                Some(before) => {
                    &&& r matches Some(outcome)
                    &&& final(self).client(*id) matches Some(after)
                    &&& after.id == before.id
                    &&& after.credentials == before.credentials
                    &&& after.conn.role == before.conn.role
                    &&& after.conn.table == before.conn.table
                    &&& after.conn.socket.same_output(&before.conn.socket)
                    &&& match outcome {
                        Ok(()) => {
                            &&& before.conn.socket.received_fds().len() + fds@.len()
                                <= MAX_FDS_IN
                            &&& after.conn.socket.received_bytes()
                                == before.conn.socket.received_bytes() + bytes@
                            &&& after.conn.socket.received_fds()
                                == before.conn.socket.received_fds() + fds@
                        },
                        Err(e) => {
                            &&& e == TransportError::FdOverflow
                            &&& before.conn.socket.received_fds().len() + fds@.len() > MAX_FDS_IN
                            &&& after.conn.socket.same_input(&before.conn.socket)
                        },
                    }
                },
            },
    {
        match self.checkout(id) {
            None => None,
            Some(client) => {
                let mut client = client;
                let outcome = client.conn.socket.receive(bytes, fds);
                self.checkin(client);
                Some(outcome)
            },
        }
    }

    /// Records that a write to the socket of a client carried the first `n`
    /// bytes of its plan and, if it carried any byte, the descriptors of the
    /// plan. Returns `false`, and changes nothing, where the id names no
    /// connected client or `n` is more than the plan offered.
    pub fn wrote(&mut self, id: &InnerClientId, n: usize) -> (done: bool)
        requires
            old(self).wf(),
        ensures
            final(self).wf(),
            final(self).registry() == old(self).registry(),
            final(self).slots() == old(self).slots(),
            final(self).serials_kept(old(self)),
            final(self).others_untouched(old(self), *id),
            match old(self).client(*id) {
                None => !done && final(self).client(*id) is None,
                Some(before) => {
                    &&& final(self).client(*id) matches Some(after)
                    &&& after.id == before.id
                    &&& after.credentials == before.credentials
                    &&& after.conn.role == before.conn.role
                    &&& after.conn.table == before.conn.table
                    &&& after.conn.socket.same_input(&before.conn.socket)
                    &&& done == (n <= before.conn.socket.plan_bytes().len())
                    &&& if done {
                        &&& after.conn.socket.pending_bytes()
                            == before.conn.socket.pending_bytes().skip(n as int)
                        &&& n == 0 ==> after.conn.socket.pending_fds()
                            == before.conn.socket.pending_fds()
                        &&& n > 0 ==> after.conn.socket.pending_fds()
                            == before.conn.socket.pending_fds().skip(
                            before.conn.socket.plan_fds().len() as int,
                        )
                    } else {
                        after.conn.socket == before.conn.socket
                    }
                },
            },
    {
        match self.checkout(id) {
            None => false,
            Some(client) => {
                let mut client = client;
                let offered: usize = match client.conn.socket.next_write() {
                    Some(plan) => plan.bytes.len(),
                    None => 0,
                };
                let done = n <= offered;
                if done {
                    client.conn.socket.wrote(n);
                }
                self.checkin(client);
                done
            },
        }
    }

    /// Takes the next request of a client from its input, if a whole one is
    /// there. See [`Client::handled`]. Returns `None` where the id names no
    /// connected client.
    pub fn next_request(&mut self, id: &InnerClientId) -> (r: Option<
        Result<Option<Delivery>, ProtocolError>,
    >)
        requires
            old(self).wf(),
        ensures
            final(self).wf(),
            final(self).registry() == old(self).registry(),
            final(self).slots() == old(self).slots(),
            final(self).serials_kept(old(self)),
            final(self).others_untouched(old(self), *id),
            match old(self).client(*id) {
                None => r is None && final(self).client(*id) is None,
                Some(before) => {
                    &&& r matches Some(outcome)
                    &&& final(self).client(*id) matches Some(after)
                    &&& after.id == before.id
                    &&& after.credentials == before.credentials
                    &&& after.conn.table.follows(&before.conn.table)
                    &&& after.conn.socket.same_output(&before.conn.socket)
                    &&& after.handled(&before, &old(self).registry(), outcome)
                },
            },
    {
        match self.checkout(id) {
            None => None,
            Some(client) => {
                let mut client = client;
                let outcome = client.next_request(&self.registry);
                self.checkin(client);
                Some(outcome)
            },
        }
    }

    /// Completes the handling of a request that was delivered. See
    /// [`crate::rs::connection::Connection::finish`]. Changes nothing where
    /// the id names no connected client.
    pub fn finish_request(
        &mut self,
        id: &InnerClientId,
        target: &InnerObjectId,
        is_destructor: bool,
        created: Option<InnerObjectId>,
        data: Option<D>,
    ) -> (retired: Option<Object<D>>)
        requires
            old(self).wf(),
        ensures
            final(self).wf(),
            final(self).registry() == old(self).registry(),
            final(self).slots() == old(self).slots(),
            final(self).serials_kept(old(self)),
            final(self).others_untouched(old(self), *id),
            match old(self).client(*id) {
                None => retired is None && final(self).client(*id) is None,
                Some(before) => {
                    &&& final(self).client(*id) matches Some(after)
                    &&& after.id == before.id
                    &&& after.credentials == before.credentials
                    &&& after.conn.role == before.conn.role
                    &&& after.conn.socket == before.conn.socket
                    &&& after.conn.table.follows(&before.conn.table)
                    &&& after.conn.finished(
                        &before.conn,
                        *target,
                        is_destructor,
                        created,
                        data,
                        retired,
                    )
                },
            },
    {
        match self.checkout(id) {
            None => None,
            Some(client) => {
                let mut client = client;
                let retired = client.conn.finish(target, is_destructor, created, data);
                self.checkin(client);
                retired
            },
        }
    }

    /// Attaches the user's data to an object of a client, replacing what
    /// was attached before. This is how the objects that a message created
    /// beside the first get their data. Fails, and changes nothing, where
    /// the handle names no live object of a connected client.
    pub fn install(&mut self, handle: &InnerObjectId, data: D) -> (r: Result<(), InvalidId>)
        requires
            old(self).wf(),
        ensures
            final(self).wf(),
            final(self).registry() == old(self).registry(),
            final(self).slots() == old(self).slots(),
            final(self).serials_kept(old(self)),
            final(self).others_untouched(old(self), handle.client_id),
            match old(self).client(handle.client_id) {
                None => r is Err && final(self).client(handle.client_id) is None,
                Some(before) => {
                    &&& final(self).client(handle.client_id) matches Some(after)
                    &&& after.id == before.id
                    &&& after.credentials == before.credentials
                    &&& after.conn.role == before.conn.role
                    &&& after.conn.socket == before.conn.socket
                    &&& after.conn.table.follows(&before.conn.table)
                    &&& r is Ok <==> before.conn.table.valid(*handle)
                    &&& after.conn.table@ == before.conn.installed(Some(*handle), Some(data))
                },
            },
    {
        match self.checkout(&handle.client_id) {
            None => Err(InvalidId),
            Some(client) => {
                let mut client = client;
                let r = client.conn.table.install(handle, data);
                self.checkin(client);
                r
            },
        }
    }

    /// Sends an event from the object `target` to the client that owns it.
    /// See [`crate::rs::connection::Connection::send`]: every object that
    /// the event creates gets the lowest id of the server's range that is
    /// free when its turn comes. Fails
    /// with `InvalidId`, and changes nothing, where the handle names no
    /// connected client.
    pub fn send_event(
        &mut self,
        target: &InnerObjectId,
        opcode: u16,
        args: Vec<Argument>,
        child: Option<&'static Interface>,
        child_data: UserData<D>,
    ) -> (r: Result<Vec<InnerObjectId>, SendError>)
        requires
            old(self).wf(),
        ensures
            final(self).wf(),
            final(self).registry() == old(self).registry(),
            final(self).slots() == old(self).slots(),
            final(self).serials_kept(old(self)),
            final(self).others_untouched(old(self), target.client_id),
            match old(self).client(target.client_id) {
                None => {
                    &&& r matches Err(e)
                    &&& e == SendError::InvalidId
                    &&& final(self).client(target.client_id) is None
                },
                Some(before) => {
                    &&& final(self).client(target.client_id) matches Some(after)
                    &&& after.id == before.id
                    &&& after.credentials == before.credentials
                    &&& after.conn.role == before.conn.role
                    &&& after.conn.table.follows(&before.conn.table)
                    &&& after.conn.socket.same_input(&before.conn.socket)
                    &&& after.conn.sent(
                        &before.conn,
                        *target,
                        opcode,
                        arg_views(args@),
                        child,
                        child_data,
                        r,
                    )
                },
            },
    {
        match self.checkout(&target.client_id) {
            None => Err(SendError::InvalidId),
            Some(client) => {
                let mut client = client;
                let r = client.conn.send(target, opcode, args, child, child_data);
                self.checkin(client);
                r
            },
        }
    }

    /// Every client was told of the event of its registry object with the
    /// opcode `opcode` and the arguments `args`, and is otherwise as it was
    /// in `before`.
    pub open spec fn all_told(&self, before: &InnerHandle<D>, opcode: u16, args: Seq<ArgumentView>) -> bool {
        forall|id: InnerClientId|
            match #[trigger] before.client(id) {
                Some(client) => self.client(id) matches Some(after) && after.told(
                    &client,
                    opcode,
                    args,
                ),
                None => self.client(id) is None,
            }
    }

    /// Tells every client of an event of its registry object.
    fn broadcast(&mut self, opcode: u16, global: &Global)
        requires
            old(self).wf(),
            opcode == REGISTRY_GLOBAL || opcode == REGISTRY_GLOBAL_REMOVE,
        ensures
            final(self).wf(),
            final(self).registry == old(self).registry,
            final(self).clients@.len() == old(self).clients@.len(),
            final(self).serials_kept(old(self)),
            final(self).all_told(
                old(self),
                opcode,
                if opcode == REGISTRY_GLOBAL {
                    global_args(*global)
                } else {
                    seq![ArgumentView::Uint(global.id.id)]
                },
            ),
    {
        let ghost args = if opcode == REGISTRY_GLOBAL {
            global_args(*global)
        } else {
            seq![ArgumentView::Uint(global.id.id)]
        };
        let count: usize = self.clients.len();
        let mut i: usize = 0;
        while i < count
            invariant
                0 <= i <= count,
                count == self.clients@.len(),
                count == old(self).clients@.len(),
                self.wf(),
                self.registry == old(self).registry,
                opcode == REGISTRY_GLOBAL || opcode == REGISTRY_GLOBAL_REMOVE,
                args == if opcode == REGISTRY_GLOBAL {
                    global_args(*global)
                } else {
                    seq![ArgumentView::Uint(global.id.id)]
                },
                forall|j: int| i <= j < count ==> self.clients@[j] == old(self).clients@[j],
                forall|j: int|
                    0 <= j < i ==> (#[trigger] self.clients@[j]).serial == old(
                        self
                    ).clients@[j].serial && match old(self).clients@[j].client {
                        Some(client) => self.clients@[j].client matches Some(after) && after.told(
                            &client,
                            opcode,
                            args,
                        ),
                        None => self.clients@[j].client is None,
                    },
            decreases count - i,
        {
            let ghost before = self.clients@;
            match take_client(&mut self.clients, i) {
                None => {
                    assert(self.clients@ =~= before);
                },
                Some(client) => {
                    let mut client = client;
                    if opcode == REGISTRY_GLOBAL {
                        let _ = client.announce(global);
                    } else {
                        let _ = client.withdraw(global);
                    }
                    put_client(&mut self.clients, i, client);
                },
            }
            i += 1;
        }
    }

    /// Creates a global and announces it to every client.
    ///
    /// Fails exactly where a global of this interface is advertised already
    /// (`Duplicate`) or the registry is full (`Exhausted`). The failure
    /// concerns this call alone: nothing changes.
    pub fn create_global(&mut self, interface: &'static Interface, version: u32) -> (r: Result<
        InnerGlobalId,
        GlobalError,
    >)
        requires
            old(self).wf(),
        ensures
            final(self).wf(),
            final(self).slots() == old(self).slots(),
            final(self).serials_kept(old(self)),
            match r {
                Ok(id) => {
                    let global = Global { id, interface, version, active: true };
                    &&& !old(self).registry().advertises(interface)
                    &&& id.id == old(self).registry()@.len() + 1
                    &&& id.serial == id.id
                    &&& final(self).registry()@ == old(self).registry()@.push(global)
                    &&& final(self).registry().holds(id)
                    &&& final(self).all_told(old(self), REGISTRY_GLOBAL, global_args(global))
                },
                Err(e) => {
                    &&& e == if old(self).registry().advertises(interface) {
                        GlobalError::Duplicate
                    } else {
                        GlobalError::Exhausted
                    }
                    &&& old(self).registry().advertises(interface) || old(self).registry()@.len()
                        == MAX_GLOBALS
                    &&& final(self).registry()@ == old(self).registry()@
                    &&& forall|id: InnerClientId| #[trigger]
                        final(self).client(id) == old(self).client(id)
                },
            },
    {
        match self.registry.add(interface, version) {
            Err(e) => Err(e),
            Ok(global) => {
                let ghost mid = *self;
                assert(forall|id: InnerClientId| #[trigger] mid.client(id) == old(self).client(id));
                self.broadcast(REGISTRY_GLOBAL, &global);
                proof {
                    let told = Global { id: global.id, interface, version, active: true };
                    assert(told == global);
                    assert forall|id: InnerClientId|
                        match #[trigger] old(self).client(id) {
                            Some(client) => self.client(id) matches Some(after) && after.told(
                                &client,
                                REGISTRY_GLOBAL,
                                global_args(told),
                            ),
                            None => self.client(id) is None,
                        } by {
                        assert(mid.client(id) == old(self).client(id));
                    }
                }
                Ok(global.id)
            },
        }
    }

    /// Withdraws a global and tells every client.
    ///
    /// Fails with `NotFound` where the id names no global that is
    /// advertised. The failure concerns this call alone: nothing changes.
    pub fn remove_global(&mut self, id: InnerGlobalId) -> (r: Result<(), GlobalError>)
        requires
            old(self).wf(),
        ensures
            final(self).wf(),
            final(self).slots() == old(self).slots(),
            final(self).serials_kept(old(self)),
            match r {
                Ok(()) => {
                    &&& old(self).registry().holds(id)
                    &&& final(self).registry()@ == old(self).registry()@.update(
                        id.id - 1,
                        Global { active: false, ..old(self).registry()@[id.id - 1] },
                    )
                    &&& !final(self).registry().active(id.id)
                    &&& final(self).all_told(
                        old(self),
                        REGISTRY_GLOBAL_REMOVE,
                        seq![ArgumentView::Uint(id.id)],
                    )
                },
                Err(e) => {
                    &&& e == GlobalError::NotFound
                    &&& !old(self).registry().holds(id)
                    &&& final(self).registry()@ == old(self).registry()@
                    &&& forall|client: InnerClientId| #[trigger]
                        final(self).client(client) == old(self).client(client)
                },
            },
    {
        match self.registry.remove(id) {
            Err(e) => Err(e),
            Ok(global) => {
                let ghost mid = *self;
                assert(forall|client: InnerClientId| #[trigger]
                    mid.client(client) == old(self).client(client));
                self.broadcast(REGISTRY_GLOBAL_REMOVE, &global);
                proof {
                    assert(global.id == id);
                    assert forall|client: InnerClientId|
                        match #[trigger] old(self).client(client) {
                            Some(before) => self.client(client) matches Some(after) && after.told(
                                &before,
                                REGISTRY_GLOBAL_REMOVE,
                                seq![ArgumentView::Uint(id.id)],
                            ),
                            None => self.client(client) is None,
                        } by {
                        assert(mid.client(client) == old(self).client(client));
                    }
                }
                Ok(())
            },
        }
    }

    /// Number of bytes received from a client and not yet decoded; 0 where
    /// the id names no connected client.
    pub fn buffered(&self, id: &InnerClientId) -> (n: usize)
        ensures
            n == match self.client(*id) {
                Some(client) => client.conn.socket.received_bytes().len(),
                None => 0,
            },
    {
        match self.client_ref(id) {
            Some(client) => client.conn.socket.input().len(),
            None => 0,
        }
    }

    /// Disconnects a client and notifies the destruction of each of its
    /// objects once, in the order of their ids. Returns whether the id named
    /// a connected client; where it named none, nothing is notified and the
    /// user's state stays as it is. An object without data is notified to
    /// nobody, so that the state also stays where no object of the client
    /// had data. The other clients and the globals stay as they are.
    pub fn kill_client<S>(&mut self, id: &InnerClientId, reason: DisconnectReason, state: &mut S) -> (killed:
        bool) where D: ObjectData<S>
        requires
            old(self).wf(),
        ensures
            final(self).wf(),
            final(self).registry() == old(self).registry(),
            final(self).slots() == old(self).slots(),
            final(self).serials_kept(old(self)),
            final(self).client(*id) is None,
            final(self).others_untouched(old(self), *id),
            killed == old(self).client(*id) is Some,
            !killed ==> *final(state) == *old(state),
            old(self).client(*id) matches Some(client) && client.conn.table.no_data() ==> *final(state) == *old(state),
    {
        match self.disconnect(id, reason) {
            None => false,
            Some(gone) => {
                let ghost quiet = forall|j: int|
                    0 <= j < gone.objects@.len() ==> (#[trigger] gone.objects@[j]).1.data
                        is Uninitialized;
                proof {
                    let client = old(self).client(*id)->0;
                    if client.conn.table.no_data() {
                        assert forall|j: int| 0 <= j < gone.objects@.len() implies (
                        #[trigger] gone.objects@[j]).1.data is Uninitialized by {
                            assert(client.conn.table.live(gone.objects@[j].0.id));
                        }
                    }
                }
                let mut k: usize = 0;
                while k < gone.objects.len()
                    invariant
                        0 <= k <= gone.objects@.len(),
                        quiet == forall|j: int|
                            0 <= j < gone.objects@.len() ==> (#[trigger] gone.objects@[j]).1.data
                                is Uninitialized,
                        quiet ==> *state == *old(state),
                    decreases gone.objects@.len() - k,
                {
                    let entry = &gone.objects[k];
                    match &entry.1.data {
                        UserData::Installed(data) => {
                            data.destroyed(state, *id, entry.0);
                        },
                        UserData::Uninitialized => {},
                    }
                    k += 1;
                }
                true
            },
        }
    }

    /// Delivers the requests that are buffered for a client to the objects
    /// they are addressed to, in the order of their arrival, and returns
    /// their number.
    ///
    /// The pass handles what was buffered when it began and ends at the first
    /// incomplete message. A violation of the protocol by the client ends it:
    /// the client is disconnected, the destruction of its objects is
    /// notified, and the reason is returned. No other client is disconnected
    /// on that account.
    ///
    /// Where the id names no connected client, or no whole request is at the
    /// front of the client's input, nothing is delivered and nothing changes,
    /// the user's state included.
    /// Where the request at the front is a violation, the pass fails with
    /// it, the client is gone, and the other clients and the globals are as
    /// they were. Where it is delivered, what follows is up to the object that
    /// handles it; a pass that succeeds has then delivered at least this
    /// request.
    pub fn dispatch_client<S>(&mut self, id: &InnerClientId, state: &mut S) -> (r: Result<
        usize,
        DisconnectReason,
    >) where D: ObjectData<S>
        requires
            old(self).wf(),
        ensures
            final(self).wf(),
            match r {
                Ok(count) => count * HEADER_LEN <= match old(self).client(*id) {
                    Some(client) => client.conn.socket.received_bytes().len(),
                    None => 0,
                },
                Err(reason) => reason is ProtocolViolation && final(self).client(*id) is None,
            },
            match old(self).client(*id) {
                None => {
                    &&& r matches Ok(count)
                    &&& count == 0
                    &&& final(self).registry() == old(self).registry()
                    &&& final(self).serials_kept(old(self))
                    &&& forall|other: InnerClientId| #[trigger]
                        final(self).client(other) == old(self).client(other)
                    &&& *final(state) == *old(state)
                },
                Some(before) => match before.request_spec(&old(self).registry()) {
                    Taken::Wait => {
                        &&& r matches Ok(count)
                        &&& count == 0
                        &&& final(self).registry() == old(self).registry()
                        &&& final(self).serials_kept(old(self))
                        &&& final(self).others_untouched(old(self), *id)
                        &&& final(self).client(*id) matches Some(after)
                        &&& after.id == before.id
                        &&& after.credentials == before.credentials
                        &&& after.conn.untouched(&before.conn)
                        &&& after.conn.socket.same_output(&before.conn.socket)
                        &&& *final(state) == *old(state)
                    },
                    Taken::Fail(e) => {
                        &&& r matches Err(reason)
                        &&& reason == DisconnectReason::ProtocolViolation(e)
                        &&& final(self).after_disconnect(old(self), *id)
                        &&& before.conn.table.no_data() ==> *final(state) == *old(state)
                    },
                    Taken::Deliver { .. } => r matches Ok(count) ==> count >= 1,
                },
            },
    {
        let budget: usize = self.buffered(id);
        let mut remaining: usize = budget;
        let mut count: usize = 0;
        while remaining >= HEADER_LEN
            invariant
                self.wf(),
                budget == match old(self).client(*id) {
                    Some(client) => client.conn.socket.received_bytes().len(),
                    None => 0,
                },
                count * HEADER_LEN + remaining <= budget,
                count == 0 ==> *self == *old(self) && *state == *old(state) && remaining == budget,
                count > 0 ==> old(self).client(*id) is Some && old(self).client(
                    *id,
                )->0.request_spec(&old(self).registry()) is Deliver,
            decreases remaining,
        {
            let before: usize = self.buffered(id);
            let delivery = match self.next_request(id) {
                None => {
                    return Ok(count);
                },
                Some(Ok(None)) => {
                    return Ok(count);
                },
                Some(Err(e)) => {
                    let ghost mid = *self;
                    proof {
                        if count == 0 {
                            let before = old(self).client(*id)->0;
                            let now = self.client(*id)->0;
                            if before.conn.table.no_data() {
                                assert forall|object: u32| #[trigger]
                                    now.conn.table.live(object) implies now.conn.table@[object].object->0.data
                                    is Uninitialized by {
                                    assert(before.conn.table.live(object));
                                }
                            }
                        }
                    }
                    let _ = self.kill_client(id, DisconnectReason::ProtocolViolation(e), state);
                    proof {
                        if count == 0 {
                            assert forall|number: u32| #[trigger]
                                self.client_serial(number) == old(self).client_serial(number) by {
                                assert(mid.client_serial(number) == old(self).client_serial(
                                    number,
                                ));
                            }
                        }
                    }
                    return Err(DisconnectReason::ProtocolViolation(e));
                },
                Some(Ok(Some(delivery))) => delivery,
            };
            let used: usize = before - self.buffered(id);
            remaining = if used <= remaining {
                remaining - used
            } else {
                0
            };
            let target = delivery.target;
            let created = if delivery.created.len() > 0 {
                Some(delivery.created[0])
            } else {
                None
            };
            let is_destructor = delivery.is_destructor;
            proof {
                self.lemma_client(*id);
            }
            let data = match self.client_ref(id) {
                Some(client) => match client.conn.table.get(&target) {
                    Some(object) => match &object.data {
                        UserData::Installed(data) => Some(data.clone()),
                        UserData::Uninitialized => None,
                    },
                    None => None,
                },
                None => None,
            };
            let reply = match data {
                Some(data) => data.request(self, state, *id, delivery),
                None => None,
            };
            match self.finish_request(id, &target, is_destructor, created, reply) {
                Some(object) => match object.data {
                    UserData::Installed(gone) => {
                        gone.destroyed(state, *id, target);
                    },
                    UserData::Uninitialized => {},
                },
                None => {},
            }
            count = count + 1;
        }
        Ok(count)
    }
}

/// Clients do not disturb each other, and globals outlive clients. Let a
/// client `a` be accepted and later disconnected, and let a client `c` be
/// accepted after that. Then every other client `b` is, throughout, as it was
/// before `a` was accepted: its table, its input and its output are
/// untouched. And `c` is told on connecting of exactly the globals that were
/// advertised before `a` was accepted.
pub proof fn lemma_clients_are_independent<D>(
    start: &InnerHandle<D>,
    with_a: &InnerHandle<D>,
    without_a: &InnerHandle<D>,
    with_c: &InnerHandle<D>,
    a: InnerClientId,
    b: InnerClientId,
    c: InnerClientId,
)
    requires
        with_a.after_accept(start, a),
        without_a.after_disconnect(with_a, a),
        with_c.after_accept(without_a, c),
        b != a,
        b != c,
    ensures
        with_a.client(b) == start.client(b),
        without_a.client(b) == start.client(b),
        with_c.client(b) == start.client(b),
        with_c.registry() == start.registry(),
        with_c.client(c) matches Some(client) && client.conn.socket.pending_bytes()
            == announcements(start.registry()@),
{
}

/// A client id is given once. Let a client be connected under an id, and let
/// a client be accepted later, when the serial of every client number is at
/// least what it was. Then the later client bears another id: under the same
/// number it has a greater serial. A client id that was kept, and every
/// object handle that bears it, therefore never names a later client.
pub proof fn lemma_client_id_is_given_once<D>(
    earlier: &InnerHandle<D>,
    before: &InnerHandle<D>,
    after: &InnerHandle<D>,
    kept: InnerClientId,
    given: InnerClientId,
)
    requires
        earlier.wf(),
        earlier.client(kept) is Some,
        forall|number: u32| #[trigger]
            before.client_serial(number) >= earlier.client_serial(number),
        after.after_accept(before, given),
    ensures
        given != kept,
        given.id == kept.id ==> given.serial > kept.serial,
{
    earlier.lemma_client(kept);
    if given.id == kept.id {
        assert(before.client_serial(kept.id) >= earlier.client_serial(kept.id));
    }
}

} // verus!
