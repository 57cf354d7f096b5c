//! One end of a connection: its object table and its socket buffers, with
//! the rules that both roles share for messages that arrive and messages
//! that leave.
//!
//! A message that arrives is handled in three steps. `peek` reads its header
//! and resolves the object it is addressed to. `take` decodes it, creates the
//! object that it names, if it names one, and removes it from the buffer; it
//! either does all of this or changes nothing. `finish` follows the user's
//! handling of the message: it installs what the user attached to the new
//! object and retires the target of a destructor.

use crate::protocol::{
    arg_views, ArgList, Argument, ArgumentType, ArgumentView, Interface, Message, MessageDesc, MessageView,
};
use crate::rs::map::{
    automatic, automatic_requests, created_all, handle_ids, ids_of, lemma_continues_reflexive,
    lemma_continues_transitive, lemma_created_all_keeps_live, lemma_created_all_slots, named,
    named_requests, Object,
    ObjectTable, Role, Slot, UserData,
};
use crate::rs::server_impl::{InnerClientId, InnerObjectId};
use crate::rs::socket::{BufferedSocket, MAX_FDS_OUT};
use crate::rs::wire::{
    args_bytes, args_fds, args_fit, check_message, decode_spec, encode_message, find_new_ids,
    header_spec, lemma_no_new_ids, lemma_with_new_ids, message_bytes, new_ids, peek_header, set_new_ids,
    with_new_ids, Decoded, MessageParseError, MessageWriteError, HEADER_LEN, MAX_MESSAGE_LEN,
};
use crate::types::{ProtocolError, SendError};
use vstd::prelude::*;

verus! {

/// One end of a connection.
#[derive(Debug)]
pub struct Connection<D> {
    /// The role of this end.
    pub role: Role,
    /// The objects of the connection.
    pub table: ObjectTable<D>,
    /// What was received and not yet decoded, and what is queued for writing.
    pub socket: BufferedSocket,
}

/// The message at the front of the input, as far as its header tells: the
/// object it is addressed to and what the object's interface says of the
/// opcode.
#[derive(Clone, Copy, Debug)]
pub struct Pending {
    pub target: InnerObjectId,
    pub opcode: u16,
    pub signature: &'static [ArgumentType],
    pub is_destructor: bool,
    /// Interface of the object that the message creates, where the
    /// interface of the target fixes it.
    pub child_interface: Option<&'static Interface>,
    /// Version of the target, which an object that the message creates
    /// inherits.
    pub version: u32,
}

/// A message ready to be handed to the user.
#[derive(Debug)]
pub struct Delivery {
    /// The object that the message is addressed to.
    pub target: InnerObjectId,
    pub message: Message,
    /// The objects that the message created, one for each `NewId` argument,
    /// in argument order.
    pub created: Vec<InnerObjectId>,
    /// Whether the message ends the life of its target.
    pub is_destructor: bool,
}

/// What taking the message at the front of the input comes to.
pub enum Taken<D> {
    /// The message is not complete yet.
    Wait,
    /// The peer violated the protocol.
    Fail(ProtocolError),
    /// The message is delivered. It takes `bytes` bytes and `fds`
    /// descriptors of the input, and creates the objects `created`, with
    /// which the table holds `slots`.
    Deliver {
        message: MessageView,
        created: Seq<InnerObjectId>,
        slots: Map<u32, Slot<D>>,
        bytes: int,
        fds: int,
    },
}

/// The messages of an interface that arrive at the end with role `role`.
pub open spec fn inbound(role: Role, interface: &Interface) -> Seq<MessageDesc> {
    match role {
        Role::Server => interface.requests@,
        Role::Client => interface.events@,
    }
}

/// The messages of an interface that leave the end with role `role`.
pub open spec fn outbound(role: Role, interface: &Interface) -> Seq<MessageDesc> {
    inbound(role.other(), interface)
}

impl<D> Connection<D> {
    /// Table and buffers are well formed.
    pub open spec fn wf(&self) -> bool {
        self.table.wf() && self.socket.wf()
    }

    /// A connection without objects and with empty buffers.
    pub fn new(role: Role, owner: InnerClientId) -> (conn: Self)
        ensures
            conn.wf(),
            conn.role == role,
            conn.table.owner() == owner,
            conn.table@ == Map::<u32, Slot<D>>::empty(),
            conn.socket.idle(),
    {
        Connection { role, table: ObjectTable::new(owner), socket: BufferedSocket::new() }
    }

    /// Table and input are those of `before`.
    pub open spec fn untouched(&self, before: &Connection<D>) -> bool {
        self.table@ == before.table@ && self.socket.same_input(&before.socket)
    }

    /// Nothing was taken, because the message at the front is incomplete.
    pub open spec fn waited(
        &self,
        before: &Connection<D>,
        r: Result<Option<Delivery>, ProtocolError>,
    ) -> bool {
        r matches Ok(None) && self.untouched(before)
    }

    /// Nothing was taken, because the peer violated the protocol as `e` says.
    pub open spec fn refused(
        &self,
        before: &Connection<D>,
        r: Result<Option<Delivery>, ProtocolError>,
        e: ProtocolError,
    ) -> bool {
        r matches Err(x) && x == e && self.untouched(before)
    }

    /// This connection and the result `r` are what taking the message
    /// `pending` from `before` gives, where `taken` is what the taking comes
    /// to.
    pub open spec fn took(
        &self,
        before: &Connection<D>,
        r: Result<Option<Delivery>, ProtocolError>,
        pending: Pending,
        taken: Taken<D>,
    ) -> bool {
        match taken {
            Taken::Wait => self.waited(before, r),
            Taken::Fail(e) => self.refused(before, r, e),
            Taken::Deliver { message, created, slots, bytes, fds } => {
                &&& r matches Ok(Some(delivery))
                &&& delivery.target == pending.target
                &&& delivery.message@ == message
                &&& delivery.created@ == created
                &&& delivery.is_destructor == pending.is_destructor
                &&& HEADER_LEN <= bytes <= before.socket.received_bytes().len()
                &&& 0 <= fds <= before.socket.received_fds().len()
                &&& self.socket.received_bytes() == before.socket.received_bytes().skip(bytes)
                &&& self.socket.received_fds() == before.socket.received_fds().skip(fds)
                &&& self.table@ == slots
                &&& forall|j: int| 0 <= j < created.len() ==> self.table.valid(#[trigger] created[j])
            },
        }
    }

    /// What the message at the front of the input resolves to: nothing
    /// while fewer bytes are buffered than its header declares, whatever the
    /// header names; then a violation where it names no live object, an
    /// opcode outside the object's interface or an object without behaviour,
    /// and else the target with the description of the message.
    pub open spec fn peek_spec(&self) -> Result<Option<Pending>, ProtocolError> {
        match header_spec(self.socket.received_bytes()) {
            None => Ok(None),
            Some((sender_id, opcode, len)) => {
                if self.socket.received_bytes().len() < len {
                    Ok(None)
                } else if !self.table.live(sender_id) {
                    Err(ProtocolError::UnknownObject)
                } else {
                    let object = self.table@[sender_id].object->0;
                    let descs = inbound(self.role, object.interface);
                    if opcode >= descs.len() {
                        Err(ProtocolError::InvalidOpcode)
                    } else if object.data is Uninitialized {
                        Err(ProtocolError::UninitializedObject)
                    } else {
                        Ok(
                            Some(
                                Pending {
                                    target: self.table.handle(sender_id),
                                    opcode,
                                    signature: descs[opcode as int].signature,
                                    is_destructor: descs[opcode as int].is_destructor,
                                    child_interface: descs[opcode as int].child_interface,
                                    version: object.version,
                                },
                            ),
                        )
                    }
                }
            },
        }
    }

    /// Reads the header at the front of the input and, once the message is
    /// there as far as its header declares, resolves the object that it
    /// names. An incomplete message is no violation, whatever it is
    /// addressed to. Changes nothing.
    pub fn peek(&self) -> (r: Result<Option<Pending>, ProtocolError>)
        requires
            self.wf(),
        ensures
            r == self.peek_spec(),
            r matches Ok(Some(pending)) ==> self.table.valid(pending.target),
    {
        let (sender_id, opcode) = match peek_header(self.socket.input()) {
            None => {
                return Ok(None);
            },
            Some((sender_id, opcode, len)) => {
                if self.socket.input().len() < len {
                    return Ok(None);
                }
                (sender_id, opcode)
            },
        };
        let (target, object) = match self.table.lookup(sender_id) {
            None => {
                return Err(ProtocolError::UnknownObject);
            },
            Some(found) => found,
        };
        let descs: &'static [MessageDesc] = match self.role {
            Role::Server => object.interface.requests,
            Role::Client => object.interface.events,
        };
        if opcode as usize >= descs.len() {
            return Err(ProtocolError::InvalidOpcode);
        }
        match &object.data {
            UserData::Uninitialized => {
                return Err(ProtocolError::UninitializedObject);
            },
            UserData::Installed(_) => {},
        }
        let desc = &descs[opcode as usize];
        Ok(
            Some(
                Pending {
                    target,
                    opcode,
                    signature: desc.signature,
                    is_destructor: desc.is_destructor,
                    child_interface: desc.child_interface,
                    version: object.version,
                },
            ),
        )
    }

    /// What taking the message at the front of the input against
    /// `signature` comes to, where the objects that the message creates get
    /// the interface `child` and the version `version`.
    ///
    /// The message creates an object for every `NewId` argument, in argument
    /// order, with the id that the argument holds, for the peer. Where one of
    /// them is refused, the message is a violation and no object is created.
    pub open spec fn take_spec(
        &self,
        signature: Seq<ArgumentType>,
        child: Option<&'static Interface>,
        version: u32,
    ) -> Taken<D> {
        match decode_spec(self.socket.received_bytes(), signature, self.socket.received_fds()) {
            Decoded::MissingData => Taken::Wait,
            Decoded::Malformed => Taken::Fail(ProtocolError::Malformed),
            Decoded::Message { message, bytes, fds } => if new_ids(message.args).len() == 0 {
                Taken::Deliver { message, created: Seq::empty(), slots: self.table@, bytes, fds }
            } else {
                match child {
                    None => Taken::Fail(ProtocolError::MissingChildInterface),
                    Some(interface) => match created_all(
                        self.table@,
                        self.table.owner(),
                        self.role.other(),
                        named(new_ids(message.args)),
                        interface,
                        version,
                    ) {
                        Err(e) => Taken::Fail(ProtocolError::InvalidNewId(e)),
                        Ok((slots, created)) => Taken::Deliver {
                            message,
                            created,
                            slots,
                            bytes,
                            fds,
                        },
                    },
                }
            },
        }
    }

    /// Decodes the message at the front of the input, creates the objects
    /// that its `NewId` arguments name, and removes the message from the
    /// input.
    ///
    /// The new objects belong to the range of the peer, have the interface
    /// `child` and the version `version`, and have nothing attached yet.
    /// Where the message is incomplete (`Ok(None)`) or the peer violated the
    /// protocol (`Err`), neither the table nor the input changes.
    pub fn take(
        &mut self,
        pending: &Pending,
        child: Option<&'static Interface>,
        version: u32,
    ) -> (r: Result<Option<Delivery>, ProtocolError>)
        requires
            old(self).wf(),
        ensures
            final(self).wf(),
            final(self).role == old(self).role,
            final(self).table.follows(&old(self).table),
            final(self).socket.same_output(&old(self).socket),
            final(self).took(
                old(self),
                r,
                *pending,
                old(self).take_spec(pending.signature@, child, version),
            ),
    {
        let (message, bytes, fds) = match self.socket.peek_message(pending.signature) {
            Err(MessageParseError::MissingData) => {
                return Ok(None);
            },
            Err(MessageParseError::Malformed) => {
                return Err(ProtocolError::Malformed);
            },
            Ok(parsed) => parsed,
        };
        let ids = find_new_ids(message.args.as_slice());
        let created = if ids.len() == 0 {
            proof {
                lemma_continues_reflexive(self.table@);
            }
            Vec::new()
        } else {
            let interface = match child {
                None => {
                    return Err(ProtocolError::MissingChildInterface);
                },
                Some(interface) => interface,
            };
            let requests = named_requests(ids.as_slice());
            match self.table.allocate_all(
                self.role.peer(),
                requests.as_slice(),
                interface,
                version,
            ) {
                Err(e) => {
                    return Err(ProtocolError::InvalidNewId(e));
                },
                Ok(made) => made,
            }
        };
        self.socket.discard(bytes, fds);
        Ok(
            Some(
                Delivery {
                    target: pending.target,
                    message,
                    created,
                    is_destructor: pending.is_destructor,
                },
            ),
        )
    }

    /// What the message at the front of the input comes to, where the
    /// objects that it creates get the interface that the target's interface
    /// gives and the target's version: `peek_spec` followed by `take_spec`.
    pub open spec fn next_spec(&self) -> Taken<D> {
        match self.peek_spec() {
            Ok(None) => Taken::Wait,
            Err(e) => Taken::Fail(e),
            Ok(Some(pending)) => self.take_spec(
                pending.signature@,
                pending.child_interface,
                pending.version,
            ),
        }
    }

    /// Takes the next message from the input, if a whole one is there: `peek`
    /// followed by `take`, with the interface that the target's interface
    /// gives for new objects, and the target's version.
    pub fn next_message(&mut self) -> (r: Result<Option<Delivery>, ProtocolError>)
        requires
            old(self).wf(),
        ensures
            final(self).wf(),
            final(self).role == old(self).role,
            final(self).table.follows(&old(self).table),
            final(self).socket.same_output(&old(self).socket),
            match old(self).peek_spec() {
                Ok(None) => final(self).waited(old(self), r),
                Err(e) => final(self).refused(old(self), r, e),
                Ok(Some(pending)) => old(self).table.valid(pending.target) && final(self).took(
                    old(self),
                    r,
                    pending,
                    old(self).next_spec(),
                ),
            },
    {
        match self.peek() {
            Err(e) => Err(e),
            Ok(None) => Ok(None),
            Ok(Some(pending)) => self.take(&pending, pending.child_interface, pending.version),
        }
    }

    /// The slots after the user's data was attached to the object that a
    /// message created: the slot of `created` holds `data` where both are
    /// given and the handle is valid, and nothing changes otherwise.
    pub open spec fn installed(&self, created: Option<InnerObjectId>, data: Option<D>) -> Map<
        u32,
        Slot<D>,
    > {
        if created is Some && data is Some && self.table.valid(created->0) {
            self.table@.insert(
                created->0.id,
                Slot {
                    serial: created->0.serial,
                    object: Some(
                        Object {
                            interface: self.table@[created->0.id].object->0.interface,
                            version: self.table@[created->0.id].object->0.version,
                            data: UserData::Installed(data->0),
                        },
                    ),
                },
            )
        } else {
            self.table@
        }
    }

    /// This connection and `retired` are what completing the handling of a
    /// message gives: the data is attached to the object created, where both
    /// are given and the object is alive, and the target of a destructor is
    /// retired and returned, where it is alive.
    pub open spec fn finished(
        &self,
        before: &Connection<D>,
        target: InnerObjectId,
        is_destructor: bool,
        created: Option<InnerObjectId>,
        data: Option<D>,
        retired: Option<Object<D>>,
    ) -> bool {
        &&& !is_destructor || !self.table.valid(target)
        &&& if is_destructor && before.table.valid(target) && !(created is Some && data is Some
            && created->0.id == target.id) {
            &&& retired == Some(before.table@[target.id].object->0)
            &&& self.table@ == before.installed(created, data).insert(
                target.id,
                Slot { serial: target.serial, object: None },
            )
        } else if is_destructor && before.table.valid(target) {
            &&& retired is Some
            &&& self.table@ == before.table@.insert(
                target.id,
                Slot { serial: target.serial, object: None },
            )
        } else {
            &&& retired is None
            &&& self.table@ == before.installed(created, data)
        }
    }

    /// Completes the handling of a delivered message.
    ///
    /// Attaches `data` to the object `created`, if both are given and the
    /// object is still alive. Then, if the message was a destructor and its
    /// target is still alive, retires the target and returns it, so that its
    /// destruction can be notified; the target is retired whether or not the
    /// user destroyed anything.
    pub fn finish(
        &mut self,
        target: &InnerObjectId,
        is_destructor: bool,
        created: Option<InnerObjectId>,
        data: Option<D>,
    ) -> (retired: Option<Object<D>>)
        requires
            old(self).wf(),
        ensures
            final(self).wf(),
            final(self).role == old(self).role,
            final(self).socket == old(self).socket,
            final(self).table.follows(&old(self).table),
            final(self).finished(old(self), *target, is_destructor, created, data, retired),
    {
        match created {
            Some(handle) => match data {
                Some(d) => {
                    let _ = self.table.install(&handle, d);
                },
                None => {},
            },
            None => {},
        }
        let ghost mid = self.table@;
        assert(mid == old(self).installed(created, data));
        if is_destructor {
            match self.table.retire(target) {
                Ok(object) => {
                    proof {
                        lemma_continues_transitive(old(self).table@, mid, self.table@);
                        if created is Some && data is Some && created->0.id == target.id {
                            assert(self.table@ =~= old(self).table@.insert(
                                target.id,
                                Slot { serial: target.serial, object: None },
                            ));
                        }
                    }
                    Some(object)
                },
                Err(_) => {
                    proof {
                        lemma_continues_transitive(old(self).table@, mid, self.table@);
                    }
                    None
                },
            }
        } else {
            None
        }
    }

    /// The interface of the objects that a message creates: the one given,
    /// or else the one that the interface of the target fixes.
    pub open spec fn child_of(
        child: Option<&'static Interface>,
        desc: MessageDesc,
    ) -> Option<&'static Interface> {
        if child is Some {
            child
        } else {
            desc.child_interface
        }
    }

    /// Why the message cannot be sent, if it cannot.
    pub open spec fn send_refusal(
        &self,
        target: InnerObjectId,
        opcode: u16,
        args: Seq<ArgumentView>,
        child: Option<&'static Interface>,
    ) -> Option<SendError> {
        if !self.table.valid(target) {
            Some(SendError::InvalidId)
        } else {
            let object = self.table@[target.id].object->0;
            let descs = outbound(self.role, object.interface);
            if opcode >= descs.len() {
                Some(SendError::InvalidOpcode)
            } else if !args_fit(args, descs[opcode as int].signature@) {
                Some(SendError::BadMessage(MessageWriteError::InvalidArguments))
            } else if HEADER_LEN + args_bytes(args).len() > MAX_MESSAGE_LEN {
                Some(SendError::BadMessage(MessageWriteError::TooLong))
            } else if args_fds(args).len() > MAX_FDS_OUT {
                Some(SendError::TooManyFds)
            } else if new_ids(args).len() == 0 {
                None
            } else if Self::child_of(child, descs[opcode as int]) is None {
                Some(SendError::MissingChildInterface)
            } else if created_all(
                self.table@,
                self.table.owner(),
                self.role,
                automatic(new_ids(args).len()),
                Self::child_of(child, descs[opcode as int])->0,
                object.version,
            ) is Err {
                Some(SendError::NoFreeId)
            } else {
                None
            }
        }
    }

    /// The slots with the objects that sending a message with the arguments
    /// `views` creates, and the handles of these objects: one object for
    /// every `NewId` argument, each with the lowest id of the range of this
    /// end that is free when its turn comes.
    pub open spec fn made(
        &self,
        views: Seq<ArgumentView>,
        child: Option<&'static Interface>,
        desc: MessageDesc,
        version: u32,
    ) -> (Map<u32, Slot<D>>, Seq<InnerObjectId>) {
        if new_ids(views).len() == 0 {
            (self.table@, Seq::<InnerObjectId>::empty())
        } else {
            created_all(
                self.table@,
                self.table.owner(),
                self.role,
                automatic(new_ids(views).len()),
                Self::child_of(child, desc)->0,
                version,
            )->Ok_0
        }
    }

    /// This connection and the result `r` are what sending the message from
    /// `before` gives. Where the message cannot be sent, nothing changes.
    /// Else an object is created for every `NewId` argument, in argument
    /// order, each with the lowest id that is free when its turn comes; the
    /// message is queued with these ids in its `NewId` arguments, behind what
    /// is queued already, and its descriptors with it; `child_data` is
    /// attached to the first of the new objects; and the target of a
    /// destructor is retired.
    pub open spec fn sent(
        &self,
        before: &Connection<D>,
        target: InnerObjectId,
        opcode: u16,
        views: Seq<ArgumentView>,
        child: Option<&'static Interface>,
        child_data: UserData<D>,
        r: Result<Vec<InnerObjectId>, SendError>,
    ) -> bool {
        match before.send_refusal(target, opcode, views, child) {
            Some(e) => {
                &&& r matches Err(x)
                &&& x == e
                &&& self.table@ == before.table@
                &&& self.socket.same_output(&before.socket)
            },
            None => {
                let object = before.table@[target.id].object->0;
                let desc = outbound(before.role, object.interface)[opcode as int];
                let made = before.made(views, child, desc, object.version);
                let slots = made.0;
                let handles = made.1;
                let with_data = if handles.len() > 0 && child_data is Installed {
                    slots.insert(
                        handles[0].id,
                        Slot {
                            serial: handles[0].serial,
                            object: Some(
                                Object {
                                    interface: handles[0].interface,
                                    version: object.version,
                                    data: child_data,
                                },
                            ),
                        },
                    )
                } else {
                    slots
                };
                let sent_args = if handles.len() == 0 {
                    views
                } else {
                    with_new_ids(views, handle_ids(handles))
                };
                &&& r matches Ok(created)
                &&& created@ == handles
                &&& handles.len() == new_ids(views).len()
                &&& !desc.is_destructor ==> forall|j: int|
                    0 <= j < handles.len() ==> self.table.valid(#[trigger] handles[j])
                &&& self.socket.pending_bytes() == before.socket.pending_bytes() + message_bytes(
                    MessageView { sender_id: target.id, opcode, args: sent_args },
                )
                &&& self.socket.pending_fds() == before.socket.pending_fds() + args_fds(views)
                &&& self.table@ == if desc.is_destructor {
                    with_data.insert(target.id, Slot { serial: target.serial, object: None })
                } else {
                    with_data
                }
            },
        }
    }

    /// Sends a message from the object `target`.
    ///
    /// For every `NewId` argument of the message an object is created in
    /// the range of this end, in argument order, each with the lowest id
    /// that is free when its turn comes, and the argument is sent with that
    /// id, whatever it held. The objects have the interface `child`, or else
    /// the one that the interface of `target` gives, and the version of
    /// `target`. `child_data` is attached to the first of them; the others
    /// have nothing attached until `ObjectTable::install` gives them their
    /// data. The encoded message and its descriptors are queued behind what
    /// is queued already. A destructor retires `target`. On every error
    /// nothing changes.
    pub fn send(
        &mut self,
        target: &InnerObjectId,
        opcode: u16,
        args: Vec<Argument>,
        child: Option<&'static Interface>,
        child_data: UserData<D>,
    ) -> (r: Result<Vec<InnerObjectId>, SendError>)
        requires
            old(self).wf(),
        ensures
            final(self).wf(),
            final(self).role == old(self).role,
            final(self).table.follows(&old(self).table),
            final(self).socket.same_input(&old(self).socket),
            final(self).sent(
                old(self),
                *target,
                opcode,
                arg_views(args@),
                child,
                child_data,
                r,
            ),
    {
        let ghost views = arg_views(args@);
        let (interface, version) = match self.table.get(target) {
            None => {
                return Err(SendError::InvalidId);
            },
            Some(object) => (object.interface, object.version),
        };
        let descs: &'static [MessageDesc] = match self.role {
            Role::Client => interface.requests,
            Role::Server => interface.events,
        };
        if opcode as usize >= descs.len() {
            return Err(SendError::InvalidOpcode);
        }
        let desc = &descs[opcode as usize];
        let fd_count = match check_message(args.as_slice(), desc.signature) {
            Err(e) => {
                return Err(SendError::BadMessage(e));
            },
            Ok(n) => n,
        };
        if fd_count > MAX_FDS_OUT {
            return Err(SendError::TooManyFds);
        }
        let mut args = args;
        let placeholders = find_new_ids(args.as_slice());
        let created: Vec<InnerObjectId> = if placeholders.len() == 0 {
            proof {
                lemma_continues_reflexive(self.table@);
            }
            Vec::new()
        } else {
            let child_interface = match child {
                Some(given) => given,
                None => match desc.child_interface {
                    Some(fixed) => fixed,
                    None => {
                        return Err(SendError::MissingChildInterface);
                    },
                },
            };
            let requests = automatic_requests(placeholders.len());
            proof {
                lemma_created_all_keeps_live(
                    self.table@,
                    self.table.owner(),
                    self.role,
                    requests@,
                    child_interface,
                    version,
                );
                lemma_created_all_slots(
                    self.table@,
                    self.table.owner(),
                    self.role,
                    requests@,
                    child_interface,
                    version,
                );
            }
            match self.table.allocate_all(self.role, requests.as_slice(), child_interface, version) {
                Err(_) => {
                    return Err(SendError::NoFreeId);
                },
                Ok(made) => made,
            }
        };
        let ghost slots = self.table@;
        assert(self.table.valid(*target));
        let ids = ids_of(created.as_slice());
        set_new_ids(&mut args, ids.as_slice());
        proof {
            lemma_with_new_ids(views, desc.signature@, ids@);
            if created@.len() == 0 {
                lemma_no_new_ids(views, ids@);
            }
        }
        if created.len() > 0 {
            match child_data {
                UserData::Installed(data) => {
                    let first = created[0];
                    let _ = self.table.install(&first, data);
                },
                UserData::Uninitialized => {},
            }
        }
        let ghost with_data = self.table@;
        proof {
            lemma_continues_transitive(old(self).table@, slots, with_data);
            assert(self.table.valid(*target));
            assert forall|j: int| 0 <= j < created@.len() implies self.table.valid(
                #[trigger] created@[j],
            ) by {
                assert(slots.contains_key(created@[j].id));
            }
        }
        let message = Message { sender_id: target.id, opcode, args: ArgList::from_vec(args) };
        match encode_message(&message, desc.signature) {
            Err(e) => {
                assert(false);
                Err(SendError::BadMessage(e))
            },
            Ok((bytes, fds)) => {
                proof {
                    crate::rs::wire::lemma_word_roundtrip(message.sender_id);
                    assert(bytes@.len() > 0);
                }
                match self.socket.queue(bytes, fds) {
                    Err(_) => {
                        assert(false);
                    },
                    Ok(()) => {},
                }
                if desc.is_destructor {
                    let _ = self.table.retire(target);
                    proof {
                        lemma_continues_transitive(old(self).table@, with_data, self.table@);
                    }
                }
                Ok(created)
            },
        }
    }
}

/// What one end sent, the other end takes. Where the input of a connection
/// starts with the wire form of a message that can be encoded against a
/// signature, and its descriptor queue with the descriptors of the message,
/// taking against the same signature delivers that message, and takes
/// exactly its bytes and its descriptors. This is said of a message that
/// creates no object.
pub proof fn lemma_sent_is_taken<D>(
    receiver: &Connection<D>,
    message: MessageView,
    signature: Seq<ArgumentType>,
    tail: Seq<u8>,
    more_fds: Seq<i32>,
    child: Option<&'static Interface>,
    version: u32,
)
    requires
        crate::rs::wire::encodable(message, signature),
        new_ids(message.args).len() == 0,
        receiver.socket.received_bytes() == message_bytes(message) + tail,
        receiver.socket.received_fds() == args_fds(message.args) + more_fds,
    ensures
        receiver.take_spec(signature, child, version) == (Taken::<D>::Deliver {
            message,
            created: Seq::empty(),
            slots: receiver.table@,
            bytes: message_bytes(message).len() as int,
            fds: args_fds(message.args).len() as int,
        }),
{
    crate::rs::wire::lemma_decode_encode(message, signature, tail, more_fds);
}

/// A message cut short is waited for. Where the input of a connection is a
/// proper prefix of the wire form of an encodable message, taking comes to
/// `Wait`, whatever the table holds and whatever the message is addressed
/// to: no violation is found in it, nothing is delivered, and nothing
/// changes.
pub proof fn lemma_prefix_waits<D>(
    conn: &Connection<D>,
    message: MessageView,
    signature: Seq<ArgumentType>,
    n: int,
)
    requires
        crate::rs::wire::encodable(message, signature),
        0 <= n < message_bytes(message).len(),
        conn.socket.received_bytes() == message_bytes(message).subrange(0, n),
    ensures
        conn.peek_spec() == Ok::<Option<Pending>, ProtocolError>(None),
        conn.next_spec() == Taken::<D>::Wait,
{
    crate::rs::wire::lemma_prefix_header(message, signature, n);
}

} // verus!
