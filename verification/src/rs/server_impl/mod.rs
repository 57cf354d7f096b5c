//! Server-side implementation of the protocol engine.

use crate::protocol::{same_interface, same_interface_spec, Interface};
use crate::text::{decimal, push_decimal};
use vstd::prelude::*;
use vstd::std_specs::cmp::PartialEqSpecImpl;
use vstd::string::StringExecFns;

pub mod client;
pub mod handle;
pub mod registry;

verus! {

/// Handle to a protocol object of one client.
///
/// Beside the numeric id that travels on the wire it holds the serial of the
/// id's current occupant, so that a handle kept across the destruction of its
/// object never equals the handle of a later object with the same number.
#[derive(Clone, Copy, Debug)]
pub struct InnerObjectId {
    pub id: u32,
    pub serial: u32,
    pub client_id: InnerClientId,
    pub interface: &'static Interface,
}

impl InnerObjectId {
    /// Tells whether this is the null id, which names no object.
    pub fn is_null(&self) -> (r: bool)
        ensures
            r == (self.id == 0),
    {
        self.id == 0
    }

    /// The interface that the object was created with.
    pub fn interface(&self) -> (r: &'static Interface)
        ensures
            r == self.interface,
    {
        self.interface
    }

    /// Tells whether both objects belong to the same client.
    pub fn same_client_as(&self, other: &InnerObjectId) -> (r: bool)
        ensures
            r == (self.client_id == other.client_id),
    {
        self.client_id == other.client_id
    }

    /// The numeric id that stands for the object on the wire.
    pub fn protocol_id(&self) -> (r: u32)
        ensures
            r == self.id,
    {
        self.id
    }

    /// The object as text: the name of its interface, `@`, its numeric id,
    /// and in square brackets the number of its client.
    pub open spec fn describe_spec(&self) -> Seq<char> {
        self.interface.name@ + seq!['@'] + decimal(self.id as nat) + seq!['['] + decimal(
            self.client_id.id as nat,
        ) + seq![']']
    }

    /// The object as text, for example `wl_display@1[0]`.
    pub fn describe(&self) -> (text: String)
        ensures
            text@ == self.describe_spec(),
    {
        proof {
            reveal_strlit("@");
            reveal_strlit("[");
            reveal_strlit("]");
        }
        let mut text = String::from_str(self.interface.name);
        text.append("@");
        push_decimal(&mut text, self.id);
        text.append("[");
        push_decimal(&mut text, self.client_id.id);
        text.append("]");
        assert(text@ =~= self.describe_spec());
        text
    }

    /// The handle as text, with the serial that tells it from other objects
    /// of the same number: `ObjectId(`, the object as text, a comma, the
    /// serial, `)`.
    pub open spec fn describe_handle_spec(&self) -> Seq<char> {
        seq!['O', 'b', 'j', 'e', 'c', 't', 'I', 'd', '('] + self.describe_spec() + seq![',', ' ']
            + decimal(self.serial as nat) + seq![')']
    }

    /// The handle as text, for example `ObjectId(wl_display@1[0], 1)`.
    pub fn describe_handle(&self) -> (text: String)
        ensures
            text@ == self.describe_handle_spec(),
    {
        proof {
            reveal_strlit("ObjectId(");
            reveal_strlit(", ");
            reveal_strlit(")");
        }
        let mut text = String::from_str("ObjectId(");
        let object = self.describe();
        text.append(object.as_str());
        text.append(", ");
        push_decimal(&mut text, self.serial);
        text.append(")");
        assert(text@ =~= self.describe_handle_spec());
        text
    }
}

impl PartialEq for InnerObjectId {
    fn eq(&self, other: &InnerObjectId) -> (r: bool) {
        self.id == other.id && self.serial == other.serial && self.client_id == other.client_id
            && same_interface(self.interface, other.interface)
    }
}

impl PartialEqSpecImpl for InnerObjectId {
    open spec fn obeys_eq_spec() -> bool {
        true
    }

    open spec fn eq_spec(&self, other: &InnerObjectId) -> bool {
        self.id == other.id && self.serial == other.serial && self.client_id == other.client_id
            && same_interface_spec(self.interface, other.interface)
    }
}

impl Eq for InnerObjectId {

}

/// An id of a client connected to the server.
#[derive(Clone, Copy, Debug, PartialEq, Eq, Structural)]
pub struct InnerClientId {
    pub id: u32,
    pub serial: u32,
}

impl InnerClientId {
    /// Packs the id into one number: the slot in the high half, the serial in
    /// the low half.
    pub fn as_u64(&self) -> (r: u64)
        ensures
            r == self.id * 0x1_0000_0000 + self.serial,
    {
        let high: u64 = self.id as u64;
        assert(high << 32 == high * 0x1_0000_0000) by (bit_vector)
            requires
                high <= 0xFFFF_FFFF,
        ;
        (high << 32) + self.serial as u64
    }

    /// Unpacks an id from the number that `as_u64` gives.
    pub fn from_u64(t: u64) -> (r: Self)
        ensures
            r.id == t / 0x1_0000_0000,
            r.serial == t % 0x1_0000_0000,
    {
        assert(t >> 32 == t / 0x1_0000_0000) by (bit_vector);
        assert(t >> 32 <= 0xFFFF_FFFF) by (bit_vector);
        assert(t & 0xFFFF_FFFF == t % 0x1_0000_0000) by (bit_vector);
        Self { id: (t >> 32) as u32, serial: (t & 0xFFFF_FFFF) as u32 }
    }
}

/// Packing a client id and unpacking it again gives the same id.
pub proof fn lemma_client_id_roundtrip(id: InnerClientId)
    ensures
        (id.id * 0x1_0000_0000 + id.serial) / 0x1_0000_0000 == id.id,
        (id.id * 0x1_0000_0000 + id.serial) % 0x1_0000_0000 == id.serial,
        id.id * 0x1_0000_0000 + id.serial <= u64::MAX,
{
}

/// The id of a global.
#[derive(Clone, Copy, Debug, PartialEq, Eq, Structural)]
pub struct InnerGlobalId {
    pub id: u32,
    pub serial: u32,
}

} // verus!
