//! The object table of one connection: which numeric ids are alive, what
//! they are bound to, and which occupant of its number each one is.
//!
//! Numeric ids are split in two ranges. The client creates objects in
//! `1 ..= SERVER_ID_LIMIT - 1`, the server in `SERVER_ID_LIMIT ..= u32::MAX`;
//! `0` names no object. Inside a range ids are handed out densely: a number
//! can be taken only if it was used before or directly follows one that was.
//! The table is sparse in that any number used before may be vacant; it is
//! dense in that no number is skipped. The rule belongs to the protocol,
//! where each peer takes the lowest free number of its range, so that a
//! number that skips ahead shows a peer that lost count. It also keeps the
//! table as small as the greatest number of objects that were alive at once,
//! whatever numbers a hostile peer names.
//! Every number carries a serial that grows by one with each new occupant and
//! is never reset, so a handle that outlived its object cannot be mistaken for
//! the object that took its number.

use crate::protocol::{same_interface, same_interface_spec, Interface, SERVER_ID_LIMIT};
use crate::rs::server_impl::{InnerClientId, InnerObjectId};
use vstd::prelude::*;
use vstd::std_specs::cmp::PartialEqSpec;
use vstd::string::StringExecFns;

verus! {

/// Number of ids in the server's range.
pub const SERVER_ID_COUNT: u32 = 0x0100_0000;

/// One of the two peers of a connection.
#[derive(Clone, Copy, Debug, PartialEq, Eq, Structural)]
pub enum Role {
    Client,
    Server,
}

impl Role {
    /// The ids in which this peer may create objects.
    pub open spec fn in_range(self, id: u32) -> bool {
        match self {
            Role::Client => 1 <= id < SERVER_ID_LIMIT,
            Role::Server => SERVER_ID_LIMIT <= id,
        }
    }

    /// The lowest id of this peer's range.
    pub open spec fn first_id(self) -> u32 {
        match self {
            Role::Client => 1,
            Role::Server => SERVER_ID_LIMIT,
        }
    }

    /// Tells whether this peer may create an object with the id `id`.
    pub fn owns(self, id: u32) -> (r: bool)
        ensures
            r == self.in_range(id),
    {
        match self {
            Role::Client => 1 <= id && id < SERVER_ID_LIMIT,
            Role::Server => SERVER_ID_LIMIT <= id,
        }
    }

    /// The other peer.
    pub open spec fn other(self) -> Role {
        match self {
            Role::Client => Role::Server,
            Role::Server => Role::Client,
        }
    }

    /// The other peer.
    pub fn peer(self) -> (r: Role)
        ensures
            r == self.other(),
    {
        match self {
            Role::Client => Role::Server,
            Role::Server => Role::Client,
        }
    }
}

/// Why an object could not be created.
#[derive(Clone, Copy, Debug, PartialEq, Eq, Structural)]
pub enum AllocError {
    /// The id is outside the range of the peer that asked for it.
    RangeViolation,
    /// The id names a live object.
    InUse,
    /// The id is in the range of the peer that asked for it, but was never
    /// used and does not follow one that was: it skips ahead.
    OutOfSequence,
    /// No id of the range is free, or the id has had all the occupants that
    /// its serial can count.
    Exhausted,
}

/// The handle does not name a live object of the table.
#[derive(Clone, Copy, Debug, PartialEq, Eq, Structural)]
pub struct InvalidId;

/// What the user attached to an object.
#[derive(Debug)]
pub enum UserData<D> {
    /// Nothing yet: the object was named by a message, and the behaviour that
    /// belongs to it has not been installed. No message may be delivered to
    /// an object in this state.
    Uninitialized,
    /// The user's data.
    Installed(D),
}

impl<D> UserData<D> {
    /// The text that stands for the data in logs: `UninitObjectData` where
    /// nothing is attached, `ObjectData` where the user's data is.
    pub open spec fn describe_spec(&self) -> Seq<char> {
        match self {
            UserData::Uninitialized => "UninitObjectData"@,
            UserData::Installed(_) => "ObjectData"@,
        }
    }

    /// Says in a word what is attached, for logs.
    pub fn describe(&self) -> (text: String)
        ensures
            text@ == self.describe_spec(),
            self is Uninitialized ==> text@ == "UninitObjectData"@,
    {
        match self {
            UserData::Uninitialized => String::from_str("UninitObjectData"),
            UserData::Installed(_) => String::from_str("ObjectData"),
        }
    }
}

/// A live object.
#[derive(Debug)]
pub struct Object<D> {
    pub interface: &'static Interface,
    pub version: u32,
    pub data: UserData<D>,
}

/// What the table keeps for one numeric id that has been used.
#[derive(Debug)]
pub struct Slot<D> {
    /// Counts the occupants that the id has had, the current one included.
    pub serial: u32,
    /// The current occupant, or `None` once it has been retired.
    pub object: Option<Object<D>>,
}

/// The object table of one connection.
#[derive(Debug)]
pub struct ObjectTable<D> {
    owner: InnerClientId,
    client_slots: Vec<Slot<D>>,
    server_slots: Vec<Slot<D>>,
}

impl<D> View for ObjectTable<D> {
    type V = Map<u32, Slot<D>>;

    /// The slots of all ids that have been used, by id.
    closed spec fn view(&self) -> Map<u32, Slot<D>> {
        Map::new(|id: u32| self.has_slot(id), |id: u32| self.store(id)[Self::slot_index(id)])
    }
}

/// `later` continues `earlier`: every id used stays used, no serial goes
/// back, and an id that keeps its serial keeps its occupant or loses it, but
/// never gets one.
pub open spec fn continues<D>(earlier: Map<u32, Slot<D>>, later: Map<u32, Slot<D>>) -> bool {
    forall|id: u32| #[trigger]
        earlier.contains_key(id) ==> {
            &&& later.contains_key(id)
            &&& later[id].serial >= earlier[id].serial
            &&& later[id].serial == earlier[id].serial && later[id].object is Some ==> {
                &&& earlier[id].object is Some
                &&& later[id].object->0.interface == earlier[id].object->0.interface
            }
        }
}

/// The id names a live object in `slots`.
pub open spec fn slots_live<D>(slots: Map<u32, Slot<D>>, id: u32) -> bool {
    slots.contains_key(id) && slots[id].object is Some
}

/// Number of occupants that the id has had in `slots`.
pub open spec fn slots_serial<D>(slots: Map<u32, Slot<D>>, id: u32) -> int {
    if slots.contains_key(id) {
        slots[id].serial as int
    } else {
        0
    }
}

/// Why `by` cannot create an object with the id `id` in `slots`, if it
/// cannot: the id is outside its range, skips ahead of the ids used, names a
/// live object, or has used up its serials.
pub open spec fn slots_refusal<D>(slots: Map<u32, Slot<D>>, by: Role, id: u32) -> Option<
    AllocError,
> {
    if !by.in_range(id) {
        Some(AllocError::RangeViolation)
    } else if !(slots.contains_key(id) || id == by.first_id() || slots.contains_key(
        (id - 1) as u32,
    )) {
        Some(AllocError::OutOfSequence)
    } else if slots_live(slots, id) {
        Some(AllocError::InUse)
    } else if slots_serial(slots, id) == u32::MAX {
        Some(AllocError::Exhausted)
    } else {
        None
    }
}

/// `id` is the lowest id of the range of `by` that names no live object in
/// `slots`.
pub open spec fn slots_lowest_free<D>(slots: Map<u32, Slot<D>>, by: Role, id: u32) -> bool {
    &&& by.in_range(id)
    &&& !slots_live(slots, id)
    &&& forall|lower: u32| by.in_range(lower) && lower < id ==> slots_live(slots, lower)
}

/// `by` has no id left in `slots`: the lowest id of its range that names no
/// live object, if there is one, has used up its serials.
pub open spec fn slots_exhausted<D>(slots: Map<u32, Slot<D>>, by: Role) -> bool {
    forall|id: u32| slots_lowest_free(slots, by, id) ==> slots_serial(slots, id) == u32::MAX
}

/// The slot of an object that was just created and has nothing attached.
pub open spec fn fresh_slot<D>(serial: u32, interface: &'static Interface, version: u32) -> Slot<D> {
    Slot { serial, object: Some(Object { interface, version, data: UserData::Uninitialized }) }
}

/// The id that a request for an object comes to in `slots`: the id named,
/// or for `None` the lowest free id of the range of `by`; or why no object
/// can be created.
pub open spec fn requested_id<D>(slots: Map<u32, Slot<D>>, by: Role, request: Option<u32>) -> Result<
    u32,
    AllocError,
> {
    match request {
        Some(id) => match slots_refusal(slots, by, id) {
            Some(e) => Err(e),
            None => Ok(id),
        },
        None => if slots_exhausted(slots, by) {
            Err(AllocError::Exhausted)
        } else {
            Ok(choose|id: u32| slots_lowest_free(slots, by, id))
        },
    }
}

/// What creating one object after the other for `requests` makes of
/// `slots`: the slots with every new object in it and the handles of the
/// objects, in the order of the requests; or the first refusal met, each
/// request being judged with the objects before it in place.
pub open spec fn created_all<D>(
    slots: Map<u32, Slot<D>>,
    owner: InnerClientId,
    by: Role,
    requests: Seq<Option<u32>>,
    interface: &'static Interface,
    version: u32,
) -> Result<(Map<u32, Slot<D>>, Seq<InnerObjectId>), AllocError>
    decreases requests.len(),
{
    if requests.len() == 0 {
        Ok((slots, Seq::empty()))
    } else {
        match created_all(slots, owner, by, requests.drop_last(), interface, version) {
            Err(e) => Err(e),
            Ok((so_far, handles)) => match requested_id(so_far, by, requests.last()) {
                Err(e) => Err(e),
                Ok(id) => {
                    let serial = (slots_serial(so_far, id) + 1) as u32;
                    Ok(
                        (
                            so_far.insert(id, fresh_slot(serial, interface, version)),
                            handles.push(InnerObjectId { id, serial, client_id: owner, interface }),
                        ),
                    )
                },
            },
        }
    }
}

/// Requests that name the ids of `ids`, one for one.
pub open spec fn named(ids: Seq<u32>) -> Seq<Option<u32>> {
    Seq::new(ids.len(), |j: int| Some(ids[j]))
}

/// `n` requests that name no id.
pub open spec fn automatic(n: nat) -> Seq<Option<u32>> {
    Seq::new(n, |j: int| None::<u32>)
}

/// The numeric ids of the handles, one for one.
pub open spec fn handle_ids(handles: Seq<InnerObjectId>) -> Seq<u32> {
    Seq::new(handles.len(), |j: int| handles[j].id)
}

/// Requests that name the ids given.
pub fn named_requests(ids: &[u32]) -> (requests: Vec<Option<u32>>)
    ensures
        requests@ == named(ids@),
{
    let mut requests: Vec<Option<u32>> = Vec::new();
    let mut i: usize = 0;
    while i < ids.len()
        invariant
            0 <= i <= ids@.len(),
            requests@.len() == i,
            forall|j: int| 0 <= j < i ==> requests@[j] == Some(ids@[j]),
        decreases ids@.len() - i,
    {
        requests.push(Some(ids[i]));
        i += 1;
    }
    assert(requests@ =~= named(ids@));
    requests
}

/// `n` requests that name no id.
pub fn automatic_requests(n: usize) -> (requests: Vec<Option<u32>>)
    ensures
        requests@ == automatic(n as nat),
{
    let mut requests: Vec<Option<u32>> = Vec::new();
    let mut i: usize = 0;
    while i < n
        invariant
            0 <= i <= n,
            requests@.len() == i,
            forall|j: int| 0 <= j < i ==> requests@[j] == None::<u32>,
        decreases n - i,
    {
        requests.push(None);
        i += 1;
    }
    assert(requests@ =~= automatic(n as nat));
    requests
}

/// The numeric ids of the handles given.
pub fn ids_of(handles: &[InnerObjectId]) -> (ids: Vec<u32>)
    ensures
        ids@ == handle_ids(handles@),
{
    let mut ids: Vec<u32> = Vec::new();
    let mut i: usize = 0;
    while i < handles.len()
        invariant
            0 <= i <= handles@.len(),
            ids@.len() == i,
            forall|j: int| 0 <= j < i ==> ids@[j] == handles@[j].id,
        decreases handles@.len() - i,
    {
        ids.push(handles[i].id);
        i += 1;
    }
    assert(ids@ =~= handle_ids(handles@));
    ids
}

/// Creating objects touches no live object: where all requests are met,
/// there is one handle for each, and every object that was alive is as it
/// was.
pub proof fn lemma_created_all_keeps_live<D>(
    slots: Map<u32, Slot<D>>,
    owner: InnerClientId,
    by: Role,
    requests: Seq<Option<u32>>,
    interface: &'static Interface,
    version: u32,
)
    ensures
        match created_all(slots, owner, by, requests, interface, version) {
            Ok((after, handles)) => {
                &&& handles.len() == requests.len()
                &&& forall|id: u32| #[trigger]
                    slots_live(slots, id) ==> after.contains_key(id) && after[id] == slots[id]
            },
            Err(_) => true,
        },
    decreases requests.len(),
{
    if requests.len() > 0 {
        lemma_created_all_keeps_live(slots, owner, by, requests.drop_last(), interface, version);
        match created_all(slots, owner, by, requests.drop_last(), interface, version) {
            Ok((so_far, handles)) => {
                match requested_id(so_far, by, requests.last()) {
                    Ok(new) => {
                        lemma_requested_id_is_free(so_far, by, requests.last());
                        let after = so_far.insert(
                            new,
                            fresh_slot::<D>(
                                (slots_serial(so_far, new) + 1) as u32,
                                interface,
                                version,
                            ),
                        );
                        assert forall|id: u32| #[trigger]
                            slots_live(slots, id) implies after.contains_key(id) && after[id]
                            == slots[id] by {
                            assert(so_far[id] == slots[id]);
                            assert(slots_live(so_far, id));
                        }
                    },
                    Err(_) => {},
                }
            },
            Err(_) => {},
        }
    }
}

/// Every object created is in the slots as it was created: the slot of
/// each handle holds an object of the interface and the version given, with
/// the serial of the handle and nothing attached.
pub proof fn lemma_created_all_slots<D>(
    slots: Map<u32, Slot<D>>,
    owner: InnerClientId,
    by: Role,
    requests: Seq<Option<u32>>,
    interface: &'static Interface,
    version: u32,
)
    ensures
        match created_all(slots, owner, by, requests, interface, version) {
            Ok((after, handles)) => forall|j: int|
                0 <= j < handles.len() ==> {
                    &&& after.contains_key((#[trigger] handles[j]).id)
                    &&& after[handles[j].id] == fresh_slot::<D>(
                        handles[j].serial,
                        interface,
                        version,
                    )
                    &&& handles[j].interface == interface
                    &&& handles[j].client_id == owner
                    &&& !slots_live(slots, handles[j].id)
                },
            Err(_) => true,
        },
    decreases requests.len(),
{
    if requests.len() > 0 {
        lemma_created_all_slots(slots, owner, by, requests.drop_last(), interface, version);
        lemma_created_all_keeps_live(slots, owner, by, requests.drop_last(), interface, version);
        match created_all(slots, owner, by, requests.drop_last(), interface, version) {
            Ok((so_far, earlier)) => {
                match requested_id(so_far, by, requests.last()) {
                    Ok(new) => {
                        lemma_requested_id_is_free(so_far, by, requests.last());
                        let serial = (slots_serial(so_far, new) + 1) as u32;
                        let after = so_far.insert(new, fresh_slot::<D>(serial, interface, version));
                        let handles = earlier.push(
                            InnerObjectId { id: new, serial, client_id: owner, interface },
                        );
                        assert forall|j: int| 0 <= j < handles.len() implies {
                            &&& after.contains_key((#[trigger] handles[j]).id)
                            &&& after[handles[j].id] == fresh_slot::<D>(
                                handles[j].serial,
                                interface,
                                version,
                            )
                            &&& handles[j].interface == interface
                            &&& handles[j].client_id == owner
                            &&& !slots_live(slots, handles[j].id)
                        } by {
                            if j < earlier.len() {
                                assert(handles[j] == earlier[j]);
                                assert(slots_live(so_far, earlier[j].id));
                            } else {
                                if slots_live(slots, new) {
                                    assert(so_far[new] == slots[new]);
                                }
                            }
                        }
                    },
                    Err(_) => {},
                }
            },
            Err(_) => {},
        }
    }
}

/// The id that a request comes to names no live object.
pub proof fn lemma_requested_id_is_free<D>(
    slots: Map<u32, Slot<D>>,
    by: Role,
    request: Option<u32>,
)
    ensures
        requested_id(slots, by, request) matches Ok(id) ==> !slots_live(slots, id) && by.in_range(
            id,
        ),
{
    if request is None && !slots_exhausted(slots, by) {
        let witness = choose|id: u32|
            slots_lowest_free(slots, by, id) && slots_serial(slots, id) != u32::MAX;
        assert(slots_lowest_free(slots, by, witness));
        let chosen = choose|id: u32| slots_lowest_free(slots, by, id);
        assert(slots_lowest_free(slots, by, chosen));
    }
}

/// A refusal met among the first requests is the refusal of them all.
pub proof fn lemma_created_all_prefix<D>(
    slots: Map<u32, Slot<D>>,
    owner: InnerClientId,
    by: Role,
    requests: Seq<Option<u32>>,
    interface: &'static Interface,
    version: u32,
    n: int,
)
    requires
        0 <= n <= requests.len(),
        created_all(slots, owner, by, requests.take(n), interface, version) is Err,
    ensures
        created_all(slots, owner, by, requests, interface, version) == created_all(
            slots,
            owner,
            by,
            requests.take(n),
            interface,
            version,
        ),
    decreases requests.len(),
{
    if n == requests.len() {
        assert(requests.take(n) =~= requests);
    } else {
        assert(requests.drop_last().take(n) =~= requests.take(n));
        lemma_created_all_prefix(slots, owner, by, requests.drop_last(), interface, version, n);
    }
}

impl<D> ObjectTable<D> {
    spec fn slot_index(id: u32) -> int {
        if id < SERVER_ID_LIMIT {
            id - 1
        } else {
            id - SERVER_ID_LIMIT
        }
    }

    spec fn store(&self, id: u32) -> Seq<Slot<D>> {
        if id < SERVER_ID_LIMIT {
            self.client_slots@
        } else {
            self.server_slots@
        }
    }

    spec fn has_slot(&self, id: u32) -> bool {
        id != 0 && Self::slot_index(id) < self.store(id).len()
    }

    /// The client that the objects of this table belong to.
    pub closed spec fn owner(&self) -> InnerClientId {
        self.owner
    }

    /// The table is well formed. Every table that this module hands out is,
    /// and every operation keeps it so.
    pub closed spec fn wf(&self) -> bool {
        &&& self.client_slots@.len() < SERVER_ID_LIMIT
        &&& self.server_slots@.len() <= SERVER_ID_COUNT
        &&& forall|i: int|
            0 <= i < self.client_slots@.len() ==> (#[trigger] self.client_slots@[i]).serial >= 1
        &&& forall|i: int|
            0 <= i < self.server_slots@.len() ==> (#[trigger] self.server_slots@[i]).serial >= 1
    }

    /// The id names a live object.
    pub open spec fn live(&self, id: u32) -> bool {
        slots_live(self@, id)
    }

    /// Number of occupants that the id has had.
    pub open spec fn serial_of(&self, id: u32) -> int {
        slots_serial(self@, id)
    }

    /// The handle of the live object with this id.
    pub open spec fn handle(&self, id: u32) -> InnerObjectId {
        InnerObjectId {
            id,
            serial: self@[id].serial,
            client_id: self.owner(),
            interface: self@[id].object->0.interface,
        }
    }

    /// The handle names a live object of this table: the id is alive, the
    /// serial is that of its current occupant, and client and interface are
    /// those of the object.
    pub open spec fn valid(&self, handle: InnerObjectId) -> bool {
        &&& self.live(handle.id)
        &&& handle.serial == self@[handle.id].serial
        &&& handle.client_id == self.owner()
        &&& same_interface_spec(handle.interface, self@[handle.id].object->0.interface)
    }

    /// The id was used before, or is the one that follows the ids used so
    /// far in the range of `by`.
    pub open spec fn in_sequence(&self, by: Role, id: u32) -> bool {
        self@.contains_key(id) || id == by.first_id() || self@.contains_key((id - 1) as u32)
    }

    /// Why `by` cannot create an object with the id `id`, if it cannot.
    pub open spec fn refusal(&self, by: Role, id: u32) -> Option<AllocError> {
        slots_refusal(self@, by, id)
    }

    /// `id` is the lowest id of the range of `by` that names no live object.
    pub open spec fn lowest_free(&self, by: Role, id: u32) -> bool {
        slots_lowest_free(self@, by, id)
    }

    /// No live object has the user's data attached.
    pub open spec fn no_data(&self) -> bool {
        forall|id: u32| #[trigger] self.live(id) ==> self@[id].object->0.data is Uninitialized
    }

    /// `by` has no id left: the lowest id of its range that names no live
    /// object, if there is one, has used up its serials.
    pub open spec fn exhausted(&self, by: Role) -> bool {
        slots_exhausted(self@, by)
    }

    /// This table continues `earlier`: same owner, and its slots continue
    /// those of `earlier`.
    pub open spec fn follows(&self, earlier: &ObjectTable<D>) -> bool {
        self.owner() == earlier.owner() && continues(earlier@, self@)
    }

    /// An empty table for the objects of `owner`.
    pub fn new(owner: InnerClientId) -> (table: Self)
        ensures
            table.wf(),
            table.owner() == owner,
            table@ == Map::<u32, Slot<D>>::empty(),
    {
        let table = ObjectTable { owner, client_slots: Vec::new(), server_slots: Vec::new() };
        assert(table@ =~= Map::<u32, Slot<D>>::empty());
        table
    }

    /// Looks up the object that a numeric id names at present, and derives
    /// its handle: the id with the serial of its current occupant.
    pub fn lookup(&self, id: u32) -> (r: Option<(InnerObjectId, &Object<D>)>)
        requires
            self.wf(),
        ensures
            match r {
                Some((handle, object)) => self.live(id) && handle == self.handle(id) && *object
                    == self@[id].object->0 && self.valid(handle),
                None => !self.live(id),
            },
    {
        if id == 0 {
            return None;
        }
        let (store, index) = if id < SERVER_ID_LIMIT {
            (&self.client_slots, (id - 1) as usize)
        } else {
            (&self.server_slots, (id - SERVER_ID_LIMIT) as usize)
        };
        if index >= store.len() {
            return None;
        }
        match &store[index].object {
            Some(object) => Some(
                (
                    InnerObjectId {
                        id,
                        serial: store[index].serial,
                        client_id: self.owner,
                        interface: object.interface,
                    },
                    object,
                ),
            ),
            None => None,
        }
    }

    /// Tells whether the handle names a live object of this table.
    pub fn is_valid(&self, handle: &InnerObjectId) -> (r: bool)
        requires
            self.wf(),
        ensures
            r == self.valid(*handle),
    {
        match self.lookup(handle.id) {
            Some((current, _)) => current.serial == handle.serial && current.client_id
                == handle.client_id && same_interface(handle.interface, current.interface),
            None => false,
        }
    }

    /// The object that the handle names, if it is alive.
    pub fn get(&self, handle: &InnerObjectId) -> (r: Option<&Object<D>>)
        requires
            self.wf(),
        ensures
            match r {
                Some(object) => self.valid(*handle) && *object == self@[handle.id].object->0,
                None => !self.valid(*handle),
            },
    {
        match self.lookup(handle.id) {
            Some((current, object)) => if current.serial == handle.serial && current.client_id
                == handle.client_id && same_interface(handle.interface, current.interface) {
                Some(object)
            } else {
                None
            },
            None => None,
        }
    }

    /// Creates an object for `by`, with the id that `request` names or, for
    /// `None`, with the lowest free id of the range of `by`.
    ///
    /// The new object takes the next serial of its id. An id outside the
    /// range of `by` is refused with `RangeViolation`, whatever the table
    /// holds. On every error the table stays as it was.
    pub fn allocate(
        &mut self,
        by: Role,
        request: Option<u32>,
        interface: &'static Interface,
        version: u32,
        data: UserData<D>,
    ) -> (r: Result<InnerObjectId, AllocError>)
        requires
            old(self).wf(),
        ensures
            final(self).wf(),
            final(self).follows(old(self)),
            match r {
                Ok(handle) => {
                    &&& old(self).refusal(by, handle.id) is None
                    &&& handle.serial == old(self).serial_of(handle.id) + 1
                    &&& handle.client_id == old(self).owner()
                    &&& handle.interface == interface
                    &&& final(self)@ == old(self)@.insert(
                        handle.id,
                        Slot { serial: handle.serial, object: Some(Object { interface, version, data }) },
                    )
                    &&& final(self).valid(handle)
                },
                Err(_) => final(self)@ == old(self)@,
            },
            match request {
                Some(id) => match old(self).refusal(by, id) {
                    Some(e) => r == Err::<InnerObjectId, AllocError>(e),
                    None => r is Ok && r->Ok_0.id == id,
                },
                None => match r {
                    Ok(handle) => old(self).lowest_free(by, handle.id),
                    Err(e) => e == AllocError::Exhausted && old(self).exhausted(by),
                },
            },
    {
        let id: u32 = match request {
            Some(id) => {
                if !by.owns(id) {
                    return Err(AllocError::RangeViolation);
                }
                id
            },
            None => {
                let found = match by {
                    Role::Client => first_vacant(&self.client_slots),
                    Role::Server => first_vacant(&self.server_slots),
                };
                let limit: usize = match by {
                    Role::Client => (SERVER_ID_LIMIT - 1) as usize,
                    Role::Server => SERVER_ID_COUNT as usize,
                };
                if found >= limit {
                    assert forall|id: u32| old(self).lowest_free(by, id) implies old(
                        self
                    ).serial_of(id) == u32::MAX by {
                        assert(self.has_slot(id));
                        assert(self.live(id));
                    }
                    return Err(AllocError::Exhausted);
                }
                let id: u32 = match by {
                    Role::Client => found as u32 + 1,
                    Role::Server => found as u32 + SERVER_ID_LIMIT,
                };
                assert(self.lowest_free(by, id)) by {
                    assert forall|lower: u32| by.in_range(lower) && lower < id implies self.live(
                        lower,
                    ) by {
                        assert(self.has_slot(lower));
                    }
                }
                assert forall|other: u32| self.lowest_free(by, other) implies other == id by {
                    if other < id {
                        assert(self.live(other));
                    } else if id < other {
                        assert(self.live(id));
                    }
                }
                id
            },
        };
        let object = Object { interface, version, data };
        let placed = if id < SERVER_ID_LIMIT {
            place(&mut self.client_slots, (id - 1) as usize, object)
        } else {
            place(&mut self.server_slots, (id - SERVER_ID_LIMIT) as usize, object)
        };
        match placed {
            Ok(serial) => {
                let handle = InnerObjectId { id, serial, client_id: self.owner, interface };
                assert(self@ =~= old(self)@.insert(
                    id,
                    Slot { serial, object: Some(Object { interface, version, data }) },
                ));
                Ok(handle)
            },
            Err(e) => {
                assert(self@ =~= old(self)@);
                Err(e)
            },
        }
    }

    /// `after` is `before` with one object more, the one that `handle`
    /// names: the two differ in the slot of the handle alone, which was
    /// vacant or unused and now holds the object with the next serial.
    spec fn one_more(before: &ObjectTable<D>, after: &ObjectTable<D>, handle: InnerObjectId) -> bool {
        &&& before.wf()
        &&& after.wf()
        &&& after.owner() == before.owner()
        &&& !before.live(handle.id)
        &&& after.live(handle.id)
        &&& handle.serial == before.serial_of(handle.id) + 1
        &&& after@[handle.id].serial == handle.serial
        &&& after@ == before@.insert(handle.id, after@[handle.id])
    }

    /// Takes back the object that `handle` names, which was the last one
    /// created: the table is again what it was before, serial included.
    fn revoke(&mut self, handle: &InnerObjectId, Ghost(before): Ghost<ObjectTable<D>>)
        requires
            Self::one_more(&before, old(self), *handle),
        ensures
            final(self).wf(),
            final(self).owner() == before.owner(),
            final(self)@ == before@,
    {
        let id: u32 = handle.id;
        assert(old(self).has_slot(id));
        if id < SERVER_ID_LIMIT {
            let index: usize = (id - 1) as usize;
            if handle.serial == 1 {
                assert(!before.has_slot(id));
                assert(self.client_slots@.len() == index + 1) by {
                    if self.client_slots@.len() > index + 1 {
                        let next: u32 = (id + 1) as u32;
                        assert(old(self).has_slot(next));
                        assert(old(self)@.contains_key(next));
                        assert(before@.contains_key(next));
                        assert(before.has_slot(next));
                    }
                }
                let _ = self.client_slots.pop();
            } else {
                assert(before.has_slot(id));
                self.client_slots.set(
                    index,
                    Slot { serial: (handle.serial - 1) as u32, object: None },
                );
            }
        } else {
            let index: usize = (id - SERVER_ID_LIMIT) as usize;
            if handle.serial == 1 {
                assert(!before.has_slot(id));
                assert(self.server_slots@.len() == index + 1) by {
                    if self.server_slots@.len() > index + 1 {
                        let next: u32 = (id + 1) as u32;
                        assert(old(self).has_slot(next));
                        assert(old(self)@.contains_key(next));
                        assert(before@.contains_key(next));
                        assert(before.has_slot(next));
                    }
                }
                let _ = self.server_slots.pop();
            } else {
                assert(before.has_slot(id));
                self.server_slots.set(
                    index,
                    Slot { serial: (handle.serial - 1) as u32, object: None },
                );
            }
        }
        proof {
            assert forall|k: u32| self@.contains_key(k) == before@.contains_key(k) by {
                if k != id {
                    assert(old(self)@.contains_key(k) == before@.contains_key(k));
                    assert(self.has_slot(k) == old(self).has_slot(k));
                }
            }
            assert forall|k: u32| self@.contains_key(k) implies self@[k] == before@[k] by {
                if k != id {
                    assert(old(self)@[k] == before@[k]);
                    assert(self.has_slot(k) && old(self).has_slot(k));
                } else {
                    assert(before@[k].object is None);
                }
            }
            assert(self@ =~= before@);
        }
    }

    /// Creates one object after the other, for `by`: for each request the
    /// object with the id that it names or, for `None`, with the lowest free
    /// id of the range of `by`. Every object has the interface and the
    /// version given and nothing attached. Each request is judged with the
    /// objects before it in place. Either all objects are created, or none:
    /// at the first refusal the table is put back as it was, serials
    /// included.
    pub fn allocate_all(
        &mut self,
        by: Role,
        requests: &[Option<u32>],
        interface: &'static Interface,
        version: u32,
    ) -> (r: Result<Vec<InnerObjectId>, AllocError>)
        requires
            old(self).wf(),
        ensures
            final(self).wf(),
            final(self).follows(old(self)),
            match created_all(old(self)@, old(self).owner(), by, requests@, interface, version) {
                Err(e) => r matches Err(x) && x == e && final(self)@ == old(self)@,
                Ok((slots, handles)) => {
                    &&& r matches Ok(made)
                    &&& made@ == handles
                    &&& final(self)@ == slots
                    &&& forall|j: int| 0 <= j < made@.len() ==> final(self).valid(#[trigger] made@[j])
                },
            },
    {
        let ghost owner = self.owner();
        let mut made: Vec<InnerObjectId> = Vec::new();
        let ghost mut tables: Seq<ObjectTable<D>> = seq![*self];
        let mut j: usize = 0;
        proof {
            assert(requests@.take(0) =~= Seq::<Option<u32>>::empty());
        }
        while j < requests.len()
            invariant
                0 <= j <= requests@.len(),
                self.wf(),
                self.owner() == owner,
                owner == old(self).owner(),
                continues(old(self)@, self@),
                made@.len() == j,
                tables.len() == j + 1,
                tables[0]@ == old(self)@,
                tables[j as int] == *self,
                forall|i: int| 0 <= i <= j ==> (#[trigger] tables[i]).owner() == owner,
                forall|i: int| 0 <= i < j ==> Self::one_more(&tables[i], &tables[i + 1], made@[i]),
                forall|i: int| 0 <= i < j ==> self.valid(#[trigger] made@[i]),
                created_all(old(self)@, owner, by, requests@.take(j as int), interface, version)
                    == Ok::<(Map<u32, Slot<D>>, Seq<InnerObjectId>), AllocError>((self@, made@)),
            decreases requests@.len() - j,
        {
            let ghost before = *self;
            let ghost made_before = made@;
            proof {
                assert(requests@.take(j as int + 1).drop_last() =~= requests@.take(j as int));
                assert(requests@.take(j as int + 1).last() == requests@[j as int]);
            }
            match self.allocate(by, requests[j], interface, version, UserData::Uninitialized) {
                Ok(handle) => {
                    made.push(handle);
                    proof {
                        tables = tables.push(*self);
                        lemma_continues_transitive(old(self)@, before@, self@);
                        if requests@[j as int] is None {
                            lemma_lowest_free_is_one(before@, by, handle.id);
                        }
                        assert forall|i: int| 0 <= i < j + 1 implies self.valid(
                            #[trigger] made@[i],
                        ) by {
                            if i < j {
                                assert(before.valid(made_before[i]));
                                assert(made@[i] == made_before[i]);
                            }
                        }
                        assert(Self::one_more(&tables[j as int], &tables[j as int + 1], handle));
                    }
                },
                Err(e) => {
                    proof {
                        lemma_created_all_prefix(
                            old(self)@,
                            owner,
                            by,
                            requests@,
                            interface,
                            version,
                            j as int + 1,
                        );
                    }
                    let mut i: usize = j;
                    while i > 0
                        invariant
                            0 <= i <= j,
                            made@.len() == j,
                            tables.len() == j + 1,
                            tables[0]@ == old(self)@,
                            owner == old(self).owner(),
                            forall|k: int| 0 <= k <= j ==> (#[trigger] tables[k]).owner() == owner,
                            forall|k: int|
                                0 <= k < j ==> Self::one_more(&tables[k], &tables[k + 1], made@[k]),
                            self.wf(),
                            self.owner() == owner,
                            self@ == tables[i as int]@,
                        decreases i,
                    {
                        i -= 1;
                        let handle = made[i];
                        proof {
                            let target = tables[i as int + 1];
                            assert(Self::one_more(&tables[i as int], &target, handle));
                            assert(self@[handle.id] == target@[handle.id]);
                        }
                        self.revoke(&handle, Ghost(tables[i as int]));
                    }
                    proof {
                        lemma_continues_reflexive(old(self)@);
                    }
                    return Err(e);
                },
            }
            j += 1;
        }
        assert(requests@.take(j as int) =~= requests@);
        Ok(made)
    }

    /// Attaches the user's data to the object that the handle names,
    /// replacing what was attached before.
    pub fn install(&mut self, handle: &InnerObjectId, data: D) -> (r: Result<(), InvalidId>)
        requires
            old(self).wf(),
        ensures
            final(self).wf(),
            final(self).follows(old(self)),
            match r {
                Ok(()) => {
                    &&& old(self).valid(*handle)
                    &&& final(self)@ == old(self)@.insert(
                        handle.id,
                        Slot {
                            serial: handle.serial,
                            object: Some(
                                Object {
                                    interface: old(self)@[handle.id].object->0.interface,
                                    version: old(self)@[handle.id].object->0.version,
                                    data: UserData::Installed(data),
                                },
                            ),
                        },
                    )
                },
                Err(_) => !old(self).valid(*handle) && final(self)@ == old(self)@,
            },
    {
        let (interface, version) = match self.get(handle) {
            Some(object) => (object.interface, object.version),
            None => {
                return Err(InvalidId);
            },
        };
        let slot = Slot {
            serial: handle.serial,
            object: Some(Object { interface, version, data: UserData::Installed(data) }),
        };
        if handle.id < SERVER_ID_LIMIT {
            self.client_slots.set((handle.id - 1) as usize, slot);
        } else {
            self.server_slots.set((handle.id - SERVER_ID_LIMIT) as usize, slot);
        }
        assert(self@ =~= old(self)@.insert(handle.id, slot));
        Ok(())
    }

    /// Retires the object that the handle names and returns it. Its id stays
    /// in the table with its serial, so that the next object with this number
    /// gets a greater one.
    pub fn retire(&mut self, handle: &InnerObjectId) -> (r: Result<Object<D>, InvalidId>)
        requires
            old(self).wf(),
        ensures
            final(self).wf(),
            final(self).follows(old(self)),
            !final(self).valid(*handle),
            match r {
                Ok(object) => {
                    &&& old(self).valid(*handle)
                    &&& object == old(self)@[handle.id].object->0
                    &&& final(self)@ == old(self)@.insert(
                        handle.id,
                        Slot { serial: handle.serial, object: None },
                    )
                },
                Err(_) => !old(self).valid(*handle) && final(self)@ == old(self)@,
            },
    {
        if !self.is_valid(handle) {
            return Err(InvalidId);
        }
        let taken = if handle.id < SERVER_ID_LIMIT {
            vacate(&mut self.client_slots, (handle.id - 1) as usize)
        } else {
            vacate(&mut self.server_slots, (handle.id - SERVER_ID_LIMIT) as usize)
        };
        assert(self@ =~= old(self)@.insert(handle.id, Slot { serial: handle.serial, object: None }));
        Ok(taken)
    }

    /// Retires every live object and returns them with their handles, in
    /// the order of their ids. Every id keeps its serial.
    pub fn retire_all(&mut self) -> (gone: Vec<(InnerObjectId, Object<D>)>)
        requires
            old(self).wf(),
        ensures
            final(self).wf(),
            final(self).follows(old(self)),
            forall|id: u32| final(self)@.contains_key(id) <==> old(self)@.contains_key(id),
            forall|id: u32| #[trigger]
                old(self)@.contains_key(id) ==> final(self)@[id] == (Slot::<D> {
                    serial: old(self)@[id].serial,
                    object: None,
                }),
            forall|k: int|
                0 <= k < gone@.len() ==> old(self).valid((#[trigger] gone@[k]).0) && gone@[k].1
                    == old(self)@[gone@[k].0.id].object->0,
            forall|k1: int, k2: int|
                0 <= k1 < k2 < gone@.len() ==> (#[trigger] gone@[k1]).0.id < (#[trigger] gone@[k2]).0.id,
            forall|id: u32|
                old(self).live(id) ==> exists|k: int|
                    0 <= k < gone@.len() && (#[trigger] gone@[k]).0.id == id,
    {
        let owner = self.owner;
        let mut gone: Vec<(InnerObjectId, Object<D>)> = Vec::new();
        drain_store(&mut self.client_slots, 1, owner, &mut gone);
        let ghost first = gone@;
        drain_store(&mut self.server_slots, SERVER_ID_LIMIT, owner, &mut gone);
        proof {
            let before = old(self);
            assert forall|k: int| 0 <= k < gone@.len() implies before.valid(
                (#[trigger] gone@[k]).0,
            ) && gone@[k].1 == before@[gone@[k].0.id].object->0 by {
                if k < first.len() {
                    assert(gone@[k] == first[k]);
                    assert(listed(before.client_slots@, 1, owner, first[k]));
                } else {
                    assert(listed(before.server_slots@, SERVER_ID_LIMIT, owner, gone@[k]));
                }
            }
            assert forall|k1: int, k2: int| 0 <= k1 < k2 < gone@.len() implies (#[trigger] gone@[k1]).0.id
                < (#[trigger] gone@[k2]).0.id by {
                if k1 < first.len() {
                    assert(gone@[k1] == first[k1]);
                    assert(listed(before.client_slots@, 1, owner, first[k1]));
                } else {
                    assert(listed(before.server_slots@, SERVER_ID_LIMIT, owner, gone@[k1]));
                }
                if k2 < first.len() {
                    assert(gone@[k2] == first[k2]);
                    assert(listed(before.client_slots@, 1, owner, first[k2]));
                } else {
                    assert(listed(before.server_slots@, SERVER_ID_LIMIT, owner, gone@[k2]));
                }
            }
            assert forall|id: u32| before.live(id) implies exists|k: int|
                0 <= k < gone@.len() && (#[trigger] gone@[k]).0.id == id by {
                assert(before.has_slot(id));
                let j = Self::slot_index(id);
                if id < SERVER_ID_LIMIT {
                    assert(before.client_slots@[j].object is Some);
                    let k = choose|k: int|
                        0 <= k < first.len() && (#[trigger] first[k]).0.id == 1 + j;
                    assert(gone@[k] == first[k]);
                } else {
                    assert(before.server_slots@[j].object is Some);
                }
            }
            assert forall|id: u32| #[trigger] before@.contains_key(id) implies self@[id] == (Slot::<
                D,
            > { serial: before@[id].serial, object: None }) by {
                assert(before.has_slot(id));
                assert(self.has_slot(id));
            }
            assert forall|id: u32| self@.contains_key(id) <==> before@.contains_key(id) by {
                assert(self.has_slot(id) <==> before.has_slot(id));
            }
        }
        gone
    }
}

/// The entry stands for the object in one slot of `store`, whose ids start
/// at `base`: the object is that of the slot, and the handle bears the slot's
/// id and serial.
spec fn listed<D>(
    store: Seq<Slot<D>>,
    base: u32,
    owner: InnerClientId,
    entry: (InnerObjectId, Object<D>),
) -> bool {
    let index = entry.0.id - base;
    &&& 0 <= index < store.len()
    &&& store[index].object == Some(entry.1)
    &&& entry.0 == InnerObjectId {
        id: entry.0.id,
        serial: store[index].serial,
        client_id: owner,
        interface: entry.1.interface,
    }
}

/// Takes every object out of `store` and appends it to `out` with its
/// handle, in slot order.
fn drain_store<D>(
    store: &mut Vec<Slot<D>>,
    base: u32,
    owner: InnerClientId,
    out: &mut Vec<(InnerObjectId, Object<D>)>,
)
    requires
        base + old(store)@.len() <= u32::MAX + 1,
    ensures
        final(store)@.len() == old(store)@.len(),
        forall|j: int|
            0 <= j < old(store)@.len() ==> #[trigger] final(store)@[j] == (Slot::<D> {
                serial: old(store)@[j].serial,
                object: None,
            }),
        final(out)@.len() >= old(out)@.len(),
        forall|k: int| 0 <= k < old(out)@.len() ==> #[trigger] final(out)@[k] == old(out)@[k],
        forall|k: int|
            old(out)@.len() <= k < final(out)@.len() ==> listed(
                old(store)@,
                base,
                owner,
                #[trigger] final(out)@[k],
            ),
        forall|k1: int, k2: int|
            old(out)@.len() <= k1 < k2 < final(out)@.len() ==> (#[trigger] final(out)@[k1]).0.id < (
            #[trigger] final(out)@[k2]).0.id,
        forall|j: int|
            0 <= j < old(store)@.len() && old(store)@[j].object is Some ==> exists|k: int|
                old(out)@.len() <= k < final(out)@.len() && (#[trigger] final(out)@[k]).0.id == base
                    + j,
{
    let n: usize = store.len();
    let mut i: usize = 0;
    while i < n
        invariant
            n == store@.len(),
            n == old(store)@.len(),
            i <= n,
            base + n <= u32::MAX + 1,
            forall|j: int|
                0 <= j < i ==> #[trigger] store@[j] == (Slot::<D> {
                    serial: old(store)@[j].serial,
                    object: None,
                }),
            forall|j: int| i <= j < n ==> #[trigger] store@[j] == old(store)@[j],
            out@.len() >= old(out)@.len(),
            forall|k: int| 0 <= k < old(out)@.len() ==> #[trigger] out@[k] == old(out)@[k],
            forall|k: int|
                old(out)@.len() <= k < out@.len() ==> listed(
                    old(store)@,
                    base,
                    owner,
                    #[trigger] out@[k],
                ) && out@[k].0.id < base + i,
            forall|k1: int, k2: int|
                old(out)@.len() <= k1 < k2 < out@.len() ==> (#[trigger] out@[k1]).0.id < (
                #[trigger] out@[k2]).0.id,
            forall|j: int|
                0 <= j < i && old(store)@[j].object is Some ==> exists|k: int|
                    old(out)@.len() <= k < out@.len() && (#[trigger] out@[k]).0.id == base + j,
        decreases n - i,
    {
        let ghost listed_before = out@;
        if store[i].object.is_some() {
            let serial: u32 = store[i].serial;
            let object = vacate(store, i);
            let handle = InnerObjectId {
                id: base + i as u32,
                serial,
                client_id: owner,
                interface: object.interface,
            };
            out.push((handle, object));
            assert(out@[out@.len() - 1].0.id == base + i);
        }
        proof {
            assert forall|j: int|
                0 <= j < i + 1 && old(store)@[j].object is Some implies exists|k: int|
                old(out)@.len() <= k < out@.len() && (#[trigger] out@[k]).0.id == base + j by {
                if j < i {
                    let k = choose|k: int|
                        old(out)@.len() <= k < listed_before.len() && (
                        #[trigger] listed_before[k]).0.id == base + j;
                    assert(out@[k] == listed_before[k]);
                } else {
                    assert(out@[out@.len() - 1].0.id == base + i);
                }
            }
        }
        i += 1;
    }
}

/// Index of the first slot without an object, or the number of slots where
/// every slot has one.
fn first_vacant<D>(store: &Vec<Slot<D>>) -> (index: usize)
    ensures
        index <= store@.len(),
        forall|i: int| 0 <= i < index ==> (#[trigger] store@[i]).object is Some,
        index < store@.len() ==> store@[index as int].object is None,
{
    let mut index: usize = 0;
    while index < store.len()
        invariant
            index <= store@.len(),
            forall|i: int| 0 <= i < index ==> (#[trigger] store@[i]).object is Some,
        decreases store@.len() - index,
    {
        if store[index].object.is_none() {
            return index;
        }
        index += 1;
    }
    index
}

/// Puts `object` in the slot `index`, which must be vacant or the one behind
/// the last: the serial that the object gets.
fn place<D>(store: &mut Vec<Slot<D>>, index: usize, object: Object<D>) -> (r: Result<
    u32,
    AllocError,
>)
    ensures
        match r {
            Ok(serial) => {
                &&& index <= old(store)@.len()
                &&& index < old(store)@.len() ==> {
                    &&& old(store)@[index as int].object is None
                    &&& serial == old(store)@[index as int].serial + 1
                    &&& final(store)@ == old(store)@.update(
                        index as int,
                        Slot { serial, object: Some(object) },
                    )
                }
                &&& index == old(store)@.len() ==> {
                    &&& serial == 1
                    &&& final(store)@ == old(store)@.push(Slot { serial, object: Some(object) })
                }
            },
            Err(e) => {
                &&& final(store)@ == old(store)@
                &&& e == if index > old(store)@.len() {
                    AllocError::OutOfSequence
                } else if old(store)@[index as int].object is Some {
                    AllocError::InUse
                } else {
                    AllocError::Exhausted
                }
                &&& index < old(store)@.len() && old(store)@[index as int].object is None
                    ==> old(store)@[index as int].serial == u32::MAX
                &&& index != old(store)@.len()
            },
        },
{
    if index > store.len() {
        Err(AllocError::OutOfSequence)
    } else if index == store.len() {
        store.push(Slot { serial: 1, object: Some(object) });
        Ok(1)
    } else if store[index].object.is_some() {
        Err(AllocError::InUse)
    } else {
        let serial: u32 = store[index].serial;
        if serial == u32::MAX {
            Err(AllocError::Exhausted)
        } else {
            store.set(index, Slot { serial: serial + 1, object: Some(object) });
            Ok(serial + 1)
        }
    }
}

/// Takes the object out of the slot `index` and leaves the slot vacant, with
/// its serial.
fn vacate<D>(store: &mut Vec<Slot<D>>, index: usize) -> (object: Object<D>)
    requires
        index < old(store)@.len(),
        old(store)@[index as int].object is Some,
    ensures
        object == old(store)@[index as int].object->0,
        final(store)@ == old(store)@.update(
            index as int,
            Slot { serial: old(store)@[index as int].serial, object: None },
        ),
{
    let slot = &mut store[index];
    let taken = slot.object.take();
    taken.unwrap()
}


/// An id outside the range of the peer that asks for it is refused as a range
/// violation, whatever the table holds. The lowest id of the server is
/// outside the range of the client, and the highest id of the client is
/// outside the range of the server.
pub proof fn lemma_foreign_id_is_refused<D>(table: &ObjectTable<D>, by: Role, id: u32)
    requires
        !by.in_range(id),
    ensures
        table.refusal(by, id) == Some(AllocError::RangeViolation),
        !Role::Client.in_range(SERVER_ID_LIMIT),
        !Role::Server.in_range((SERVER_ID_LIMIT - 1) as u32),
        !Role::Client.in_range(0) && !Role::Server.in_range(0),
{
}

/// The lowest free id of a range is one id: what names it is the id chosen
/// for a request that names none.
pub proof fn lemma_lowest_free_is_one<D>(slots: Map<u32, Slot<D>>, by: Role, id: u32)
    requires
        slots_lowest_free(slots, by, id),
        slots_serial(slots, id) < u32::MAX,
    ensures
        !slots_exhausted(slots, by),
        requested_id(slots, by, None) == Ok::<u32, AllocError>(id),
{
    let chosen = choose|other: u32| slots_lowest_free(slots, by, other);
    assert(slots_lowest_free(slots, by, chosen));
    if chosen < id {
        assert(slots_live(slots, chosen));
    } else if id < chosen {
        assert(slots_live(slots, id));
    }
}

/// Every run of slots continues itself.
pub proof fn lemma_continues_reflexive<D>(slots: Map<u32, Slot<D>>)
    ensures
        continues(slots, slots),
{
}

/// Continuation is transitive.
pub proof fn lemma_continues_transitive<D>(
    first: Map<u32, Slot<D>>,
    second: Map<u32, Slot<D>>,
    third: Map<u32, Slot<D>>,
)
    requires
        continues(first, second),
        continues(second, third),
    ensures
        continues(first, third),
{
    assert forall|id: u32| #[trigger] first.contains_key(id) implies {
        &&& third.contains_key(id)
        &&& third[id].serial >= first[id].serial
        &&& third[id].serial == first[id].serial && third[id].object is Some ==> {
            &&& first[id].object is Some
            &&& third[id].object->0.interface == first[id].object->0.interface
        }
    } by {
        assert(second.contains_key(id));
    }
}

/// Every id that a well-formed table holds has a serial of at least 1.
pub proof fn lemma_serials_start_at_one<D>(table: &ObjectTable<D>, id: u32)
    requires
        table.wf(),
        table@.contains_key(id),
    ensures
        table@[id].serial >= 1,
{
}

/// A stale handle stays stale. If a handle names no live object of a table,
/// and its serial is not beyond what the table has reached for its id, then
/// it names no live object of any table that continues this one.
pub proof fn lemma_stale_stays_stale<D>(
    earlier: &ObjectTable<D>,
    later: &ObjectTable<D>,
    handle: InnerObjectId,
)
    requires
        later.wf(),
        later.follows(earlier),
        !earlier.valid(handle),
        handle.serial <= earlier.serial_of(handle.id),
    ensures
        !later.valid(handle),
{
    if later.valid(handle) {
        lemma_serials_start_at_one(later, handle.id);
        assert(earlier@.contains_key(handle.id));
    }
}

/// A reused id gets a new handle. Let a handle name a live object, let the
/// object be retired, and let the same numeric id name a live object again
/// later. Then the handle of the later object bears a greater serial and does
/// not compare equal to the old handle, and the old handle is not valid in
/// the later table.
pub proof fn lemma_reused_id_has_new_handle<D>(
    before: &ObjectTable<D>,
    retired: &ObjectTable<D>,
    later: &ObjectTable<D>,
    old_handle: InnerObjectId,
    new_handle: InnerObjectId,
)
    requires
        before.valid(old_handle),
        retired.follows(before),
        !retired.live(old_handle.id),
        later.wf(),
        later.follows(retired),
        later.valid(new_handle),
        new_handle.id == old_handle.id,
    ensures
        new_handle.serial > old_handle.serial,
        !new_handle.eq_spec(&old_handle),
        !later.valid(old_handle),
{
    assert(before@.contains_key(old_handle.id));
    assert(retired@.contains_key(old_handle.id));
    assert(later@.contains_key(old_handle.id));
}

} // verus!
