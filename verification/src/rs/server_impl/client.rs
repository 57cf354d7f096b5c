//! One client of a server: its connection, and the two rules that only the
//! server side knows, the bind request and the announcement of globals.

use crate::core_interfaces::{
    wl_display_interface, wl_registry_interface, DISPLAY_ID, REGISTRY_BIND, REGISTRY_GLOBAL,
    REGISTRY_GLOBAL_REMOVE, REGISTRY_ID,
};
use crate::protocol::{arg_views, same_interface, Argument, ArgumentView, MessageView};
use crate::rs::connection::{Connection, Delivery, Pending, Taken};
use crate::rs::map::{Object, Role, Slot, UserData};
use crate::rs::server_impl::registry::{Global, Registry};
use crate::rs::server_impl::{InnerClientId, InnerObjectId};
use crate::rs::wire::{decode_spec, message_bytes, new_ids, Decoded, MessageParseError};
use crate::types::{Credentials, ProtocolError};
use vstd::prelude::*;
use vstd::slice::slice_to_vec;
use vstd::string::StringSliceAdditionalSpecFns;

verus! {

/// A client connected to the server.
#[derive(Debug)]
pub struct Client<D> {
    pub id: InnerClientId,
    /// Credentials of the peer, as they were when the connection was
    /// accepted.
    pub credentials: Credentials,
    pub conn: Connection<D>,
}

/// The arguments of a bind request: the number of the global, the name of
/// the interface and the version asked for. `None` where the arguments are
/// not those of a bind.
pub open spec fn bind_request(args: Seq<ArgumentView>) -> Option<(u32, Seq<u8>, u32)> {
    if args.len() == 4 {
        match (args[0], args[1], args[2], args[3]) {
            (
                ArgumentView::Uint(name),
                ArgumentView::Str(interface),
                ArgumentView::Uint(version),
                ArgumentView::NewId(_),
            ) => Some((name, interface, version)),
            _ => None,
        }
    } else {
        None
    }
}

/// Reads the arguments of a bind request.
pub fn bind_arguments<'a>(args: &'a [Argument]) -> (r: Option<(u32, &'a [u8], u32)>)
    ensures
        match bind_request(arg_views(args@)) {
            Some((name, interface, version)) => r matches Some((n, i, v)) && n == name && i@
                == interface && v == version,
            None => r is None,
        },
{
    if args.len() != 4 {
        return None;
    }
    proof {
        let views = arg_views(args@);
        assert(views[0] == args@[0]@);
        assert(views[1] == args@[1]@);
        assert(views[2] == args@[2]@);
        assert(views[3] == args@[3]@);
    }
    match (&args[0], &args[1], &args[2], &args[3]) {
        (
            Argument::Uint(name),
            Argument::Str(interface),
            Argument::Uint(version),
            Argument::NewId(_),
        ) => Some((*name, interface.as_slice(), *version)),
        _ => None,
    }
}

/// The arguments of the event that announces a global.
pub open spec fn global_args(global: Global) -> Seq<ArgumentView> {
    seq![
        ArgumentView::Uint(global.id.id),
        ArgumentView::Str(global.interface.name.spec_bytes()),
        ArgumentView::Uint(global.version),
    ]
}

/// Neither run of arguments holds a `NewId`.
pub proof fn lemma_registry_events_create_nothing(global: Global, name: u32)
    ensures
        new_ids(global_args(global)).len() == 0,
        new_ids(seq![ArgumentView::Uint(name)]).len() == 0,
{
    reveal_with_fuel(new_ids, 5);
    let args = global_args(global);
    assert(args.drop_last() =~= seq![
        ArgumentView::Uint(global.id.id),
        ArgumentView::Str(global.interface.name.spec_bytes()),
    ]);
    assert(args.drop_last().drop_last() =~= seq![ArgumentView::Uint(global.id.id)]);
    assert(args.drop_last().drop_last().drop_last() =~= Seq::<ArgumentView>::empty());
    assert(seq![ArgumentView::Uint(name)].drop_last() =~= Seq::<ArgumentView>::empty());
}

impl<D> Client<D> {
    /// The connection is well formed, has the role of the server, and its
    /// objects belong to this client.
    pub open spec fn wf(&self) -> bool {
        &&& self.conn.wf()
        &&& self.conn.role == Role::Server
        &&& self.conn.table.owner() == self.id
    }

    /// The message is a bind request: it is addressed to a registry and
    /// bears the opcode of `bind`.
    pub open spec fn is_bind(pending: Pending) -> bool {
        pending.target.interface.name@ == "wl_registry"@ && pending.opcode == REGISTRY_BIND
    }

    /// The registry object of the client, if it is alive.
    pub open spec fn registry_object(&self) -> Option<InnerObjectId> {
        if self.conn.table.live(REGISTRY_ID) && self.conn.table.handle(
            REGISTRY_ID,
        ).interface.name@ == "wl_registry"@ {
            Some(self.conn.table.handle(REGISTRY_ID))
        } else {
            None
        }
    }

    /// A client whose table holds the display as id 1 and the registry as
    /// id 2, with the data given, and whose buffers are empty.
    pub fn new(id: InnerClientId, credentials: Credentials, display: D, registry: D) -> (client:
        Self)
        ensures
            client.wf(),
            client.id == id,
            client.credentials == credentials,
            client.conn.table@ == Map::<u32, Slot<D>>::empty().insert(
                DISPLAY_ID,
                Slot {
                    serial: 1,
                    object: Some(
                        Object {
                            interface: client.conn.table@[DISPLAY_ID].object->0.interface,
                            version: 1,
                            data: UserData::Installed(display),
                        },
                    ),
                },
            ).insert(
                REGISTRY_ID,
                Slot {
                    serial: 1,
                    object: Some(
                        Object {
                            interface: client.conn.table@[REGISTRY_ID].object->0.interface,
                            version: 1,
                            data: UserData::Installed(registry),
                        },
                    ),
                },
            ),
            client.conn.table@[DISPLAY_ID].object->0.interface.name@ == "wl_display"@,
            client.registry_object() == Some(
                InnerObjectId {
                    id: REGISTRY_ID,
                    serial: 1,
                    client_id: id,
                    interface: client.conn.table@[REGISTRY_ID].object->0.interface,
                },
            ),
            client.conn.table@[REGISTRY_ID].object->0.interface.events@.len() == 2,
            client.conn.table@[REGISTRY_ID].object->0.interface.events@[0].signature@ == seq![
                crate::protocol::ArgumentType::Uint,
                crate::protocol::ArgumentType::Str,
                crate::protocol::ArgumentType::Uint,
            ],
            !client.conn.table@[REGISTRY_ID].object->0.interface.events@[0].is_destructor,
            client.conn.socket.idle(),
    {
        let mut conn = Connection::new(Role::Server, id);
        let first = conn.table.allocate(
            Role::Client,
            Some(DISPLAY_ID),
            wl_display_interface(),
            1,
            UserData::Installed(display),
        );
        assert(first is Ok);
        let second = conn.table.allocate(
            Role::Client,
            Some(REGISTRY_ID),
            wl_registry_interface(),
            1,
            UserData::Installed(registry),
        );
        assert(second is Ok);
        Client { id, credentials, conn }
    }

    /// What the request at the front of the input comes to.
    ///
    /// A bind request creates its object with the interface of the global
    /// that it names and the version that it asks for; a bind that names no
    /// advertised global, another interface or a version that is not offered
    /// is a violation. Every other request comes to what
    /// `Connection::next_spec` says.
    pub open spec fn request_spec(&self, registry: &Registry) -> Taken<D> {
        match self.conn.peek_spec() {
            Ok(None) => Taken::Wait,
            Err(e) => Taken::Fail(e),
            Ok(Some(pending)) => if Self::is_bind(pending) {
                match decode_spec(
                    self.conn.socket.received_bytes(),
                    pending.signature@,
                    self.conn.socket.received_fds(),
                ) {
                    Decoded::MissingData => Taken::Wait,
                    Decoded::Malformed => Taken::Fail(ProtocolError::Malformed),
                    Decoded::Message { message, bytes, fds } => match bind_request(message.args) {
                        None => Taken::Fail(ProtocolError::Malformed),
                        Some((name, interface, version)) => match registry.bind_spec(
                            name,
                            interface,
                            version,
                        ) {
                            Err(e) => Taken::Fail(e),
                            Ok(global) => self.conn.take_spec(
                                pending.signature@,
                                Some(global.interface),
                                version,
                            ),
                        },
                    },
                }
            } else {
                self.conn.take_spec(pending.signature@, pending.child_interface, pending.version)
            },
        }
    }

    /// This client and the result `r` are what handling the request at the
    /// front of the input of `before` gives.
    ///
    /// They are what `request_spec` says: nothing changes where the request
    /// is incomplete or a violation, and else the request is delivered, with
    /// the objects that it creates in the table.
    pub open spec fn handled(
        &self,
        before: &Client<D>,
        registry: &Registry,
        r: Result<Option<Delivery>, ProtocolError>,
    ) -> bool {
        match before.conn.peek_spec() {
            Ok(None) => self.conn.waited(&before.conn, r),
            Err(e) => self.conn.refused(&before.conn, r, e),
            Ok(Some(pending)) => {
                &&& before.conn.table.valid(pending.target)
                &&& self.conn.took(&before.conn, r, pending, before.request_spec(registry))
            },
        }
    }

    /// Takes the next request from the input, if a whole one is there.
    pub fn next_request(&mut self, registry: &Registry) -> (r: Result<
        Option<Delivery>,
        ProtocolError,
    >)
        requires
            old(self).wf(),
        ensures
            final(self).wf(),
            final(self).id == old(self).id,
            final(self).credentials == old(self).credentials,
            final(self).conn.table.follows(&old(self).conn.table),
            final(self).conn.socket.same_output(&old(self).conn.socket),
            final(self).handled(old(self), registry, r),
    {
        let pending = match self.conn.peek() {
            Err(e) => {
                return Err(e);
            },
            Ok(None) => {
                return Ok(None);
            },
            Ok(Some(pending)) => pending,
        };
        if pending.opcode == REGISTRY_BIND && same_interface(
            pending.target.interface,
            wl_registry_interface(),
        ) {
            let (child, version) = match self.conn.socket.peek_message(pending.signature) {
                Err(MessageParseError::MissingData) => {
                    return Ok(None);
                },
                Err(MessageParseError::Malformed) => {
                    return Err(ProtocolError::Malformed);
                },
                Ok((message, _, _)) => {
                    let (name, interface, version) = match bind_arguments(
                        message.args.as_slice(),
                    ) {
                        None => {
                            return Err(ProtocolError::Malformed);
                        },
                        Some(found) => found,
                    };
                    match registry.bind_target(name, interface, version) {
                        Err(e) => {
                            return Err(e);
                        },
                        Ok(global) => (global.interface, version),
                    }
                },
            };
            self.conn.take(&pending, Some(child), version)
        } else {
            self.conn.take(&pending, pending.child_interface, pending.version)
        }
    }

    /// The client can be sent the event of its registry object with the
    /// opcode `opcode` and the arguments `args`: it has its registry object,
    /// and the event can be sent from it.
    pub open spec fn hears(&self, opcode: u16, args: Seq<ArgumentView>) -> bool {
        self.registry_object() matches Some(registry) && self.conn.send_refusal(
            registry,
            opcode,
            args,
            None,
        ) is None
    }

    /// This client is what announcing or withdrawing a global to `before`
    /// gives, where the event has the opcode `opcode` and the arguments
    /// `args`.
    ///
    /// The event is queued behind what is queued already, where the client
    /// has its registry object and the event can be sent from it. Else
    /// nothing is queued.
    pub open spec fn told(&self, before: &Client<D>, opcode: u16, args: Seq<ArgumentView>) -> bool {
        let sent = before.hears(opcode, args);
        &&& self.id == before.id
        &&& self.credentials == before.credentials
        &&& self.conn.role == before.conn.role
        &&& self.conn.table.follows(&before.conn.table)
        &&& self.conn.socket.same_input(&before.conn.socket)
        &&& if sent {
            &&& self.conn.socket.pending_bytes() == before.conn.socket.pending_bytes()
                + message_bytes(MessageView { sender_id: REGISTRY_ID, opcode, args })
            &&& self.conn.socket.pending_fds() == before.conn.socket.pending_fds()
            &&& !crate::rs::connection::outbound(
                before.conn.role,
                before.conn.table@[REGISTRY_ID].object->0.interface,
            )[opcode as int].is_destructor ==> self.conn.table@ == before.conn.table@
        } else {
            &&& self.conn.table@ == before.conn.table@
            &&& self.conn.socket.same_output(&before.conn.socket)
        }
    }

    /// Sends an event without new objects from the registry object of the
    /// client, if it has one.
    fn tell(&mut self, opcode: u16, args: Vec<Argument>) -> (sent: bool)
        requires
            old(self).wf(),
            new_ids(arg_views(args@)).len() == 0,
            crate::rs::wire::args_fds(arg_views(args@)).len() == 0,
        ensures
            final(self).wf(),
            sent == old(self).hears(opcode, arg_views(args@)),
            final(self).told(old(self), opcode, arg_views(args@)),
    {
        let registry = match self.conn.table.lookup(REGISTRY_ID) {
            None => {
                return false;
            },
            Some((handle, _)) => handle,
        };
        if !same_interface(registry.interface, wl_registry_interface()) {
            return false;
        }
        let ghost before = self.conn.socket.pending_fds();
        proof {
            crate::rs::wire::lemma_no_new_ids(arg_views(args@), Seq::empty());
        }
        match self.conn.send(&registry, opcode, args, None, UserData::Uninitialized) {
            Ok(_) => {
                assert(self.conn.socket.pending_fds() =~= before);
                true
            },
            Err(_) => false,
        }
    }

    /// Announces a global to the client: queues the `global` event of its
    /// registry object.
    pub fn announce(&mut self, global: &Global) -> (sent: bool)
        requires
            old(self).wf(),
        ensures
            final(self).wf(),
            sent == old(self).hears(REGISTRY_GLOBAL, global_args(*global)),
            final(self).told(old(self), REGISTRY_GLOBAL, global_args(*global)),
    {
        let mut args: Vec<Argument> = Vec::new();
        args.push(Argument::Uint(global.id.id));
        args.push(Argument::Str(slice_to_vec(global.interface.name.as_bytes())));
        args.push(Argument::Uint(global.version));
        proof {
            assert(arg_views(args@) =~= global_args(*global));
            lemma_registry_events_create_nothing(*global, 0);
            lemma_no_descriptors(global_args(*global));
        }
        self.tell(REGISTRY_GLOBAL, args)
    }

    /// Tells the client that a global was withdrawn: queues the
    /// `global_remove` event of its registry object.
    pub fn withdraw(&mut self, global: &Global) -> (sent: bool)
        requires
            old(self).wf(),
        ensures
            final(self).wf(),
            sent == old(self).hears(REGISTRY_GLOBAL_REMOVE, seq![ArgumentView::Uint(global.id.id)]),
            final(self).told(
                old(self),
                REGISTRY_GLOBAL_REMOVE,
                seq![ArgumentView::Uint(global.id.id)],
            ),
    {
        let mut args: Vec<Argument> = Vec::new();
        args.push(Argument::Uint(global.id.id));
        proof {
            assert(arg_views(args@) =~= seq![ArgumentView::Uint(global.id.id)]);
            lemma_registry_events_create_nothing(*global, global.id.id);
            lemma_no_descriptors(seq![ArgumentView::Uint(global.id.id)]);
        }
        self.tell(REGISTRY_GLOBAL_REMOVE, args)
    }
}

/// Arguments none of which is a file descriptor carry no descriptors.
pub proof fn lemma_no_descriptors(args: Seq<ArgumentView>)
    requires
        forall|i: int| 0 <= i < args.len() ==> !((#[trigger] args[i]) is Fd),
    ensures
        crate::rs::wire::args_fds(args) == Seq::<i32>::empty(),
    decreases args.len(),
{
    if args.len() > 0 {
        lemma_no_descriptors(args.drop_last());
        assert(crate::rs::wire::args_fds(args) =~= Seq::<i32>::empty());
    }
}

/// A request cut short is waited for. Where the input of a client is a
/// proper prefix of the wire form of an encodable message, handling it
/// comes to `Wait`, whatever the client's table and the registry hold: no
/// violation is found in it, and the client stays connected.
pub proof fn lemma_prefix_of_request_waits<D>(
    client: &Client<D>,
    registry: &Registry,
    message: MessageView,
    signature: Seq<crate::protocol::ArgumentType>,
    n: int,
)
    requires
        crate::rs::wire::encodable(message, signature),
        0 <= n < message_bytes(message).len(),
        client.conn.socket.received_bytes() == message_bytes(message).subrange(0, n),
    ensures
        client.request_spec(registry) == Taken::<D>::Wait,
{
    crate::rs::connection::lemma_prefix_waits(&client.conn, message, signature, n);
}

} // verus!
