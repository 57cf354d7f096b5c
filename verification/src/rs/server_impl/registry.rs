//! The globals that a server advertises.
//!
//! Globals are kept in the order in which they were created and are known to
//! clients by their place in that order, counted from 1. A global that was
//! removed keeps its place, so that no number ever names two globals.

use crate::protocol::{bytes_eq, same_interface, same_interface_spec, Interface};
use crate::rs::server_impl::InnerGlobalId;
use crate::types::{GlobalError, ProtocolError};
use vstd::prelude::*;
use vstd::string::StringSliceAdditionalSpecFns;

verus! {

/// Greatest number of globals that a registry holds over its life.
pub const MAX_GLOBALS: usize = 0xFFFF_FFFE;

/// A capability that the server advertises.
#[derive(Clone, Copy, Debug)]
pub struct Global {
    pub id: InnerGlobalId,
    pub interface: &'static Interface,
    /// Greatest version that the server offers.
    pub version: u32,
    /// Whether the global is advertised at present.
    pub active: bool,
}

/// The globals of a server.
#[derive(Debug)]
pub struct Registry {
    globals: Vec<Global>,
}

impl View for Registry {
    type V = Seq<Global>;

    /// All globals ever created, in the order of their creation.
    closed spec fn view(&self) -> Seq<Global> {
        self.globals@
    }
}

impl Registry {
    /// Every global bears the id of its place.
    pub open spec fn wf(&self) -> bool {
        &&& self@.len() <= MAX_GLOBALS
        &&& forall|i: int|
            0 <= i < self@.len() ==> (#[trigger] self@[i]).id == (InnerGlobalId {
                id: (i + 1) as u32,
                serial: (i + 1) as u32,
            })
    }

    /// The number names a global that is advertised at present.
    pub open spec fn active(&self, name: u32) -> bool {
        1 <= name <= self@.len() && self@[name - 1].active
    }

    /// The id names a global that is advertised at present.
    pub open spec fn holds(&self, id: InnerGlobalId) -> bool {
        self.active(id.id) && self@[id.id - 1].id == id
    }

    /// A global of this interface is advertised at present.
    pub open spec fn advertises(&self, interface: &Interface) -> bool {
        exists|i: int|
            0 <= i < self@.len() && (#[trigger] self@[i]).active && same_interface_spec(
                self@[i].interface,
                interface,
            )
    }

    /// What a bind to the global `name` with the interface name `interface`
    /// and the version `version` resolves to: the global, or the violation
    /// that the bind is. The interface must be the one advertised, and the
    /// version at least 1 and at most the one advertised.
    pub open spec fn bind_spec(&self, name: u32, interface: Seq<u8>, version: u32) -> Result<
        Global,
        ProtocolError,
    > {
        if !self.active(name) {
            Err(ProtocolError::UnknownGlobal)
        } else {
            let global = self@[name - 1];
            if interface != global.interface.name.spec_bytes() || version == 0 || version
                > global.version {
                Err(ProtocolError::BindMismatch)
            } else {
                Ok(global)
            }
        }
    }

    /// A registry without globals.
    pub fn new() -> (registry: Registry)
        ensures
            registry.wf(),
            registry@ == Seq::<Global>::empty(),
    {
        Registry { globals: Vec::new() }
    }

    /// All globals ever created, removed ones included.
    pub fn globals(&self) -> (all: &[Global])
        ensures
            all@ == self@,
    {
        self.globals.as_slice()
    }

    /// Tells whether a global of this interface is advertised at present.
    pub fn is_advertised(&self, interface: &'static Interface) -> (r: bool)
        ensures
            r == self.advertises(interface),
    {
        let mut i: usize = 0;
        while i < self.globals.len()
            invariant
                0 <= i <= self@.len(),
                forall|j: int|
                    0 <= j < i ==> !((#[trigger] self@[j]).active && same_interface_spec(
                        self@[j].interface,
                        interface,
                    )),
            decreases self@.len() - i,
        {
            if self.globals[i].active && same_interface(self.globals[i].interface, interface) {
                return true;
            }
            i += 1;
        }
        false
    }

    /// Creates a global of the given interface and version and advertises
    /// it. Fails with `Duplicate` where a global of this interface is
    /// advertised already, and with `Exhausted` where the registry is full;
    /// then nothing changes.
    pub fn add(&mut self, interface: &'static Interface, version: u32) -> (r: Result<
        Global,
        GlobalError,
    >)
        requires
            old(self).wf(),
        ensures
            final(self).wf(),
            match r {
                Ok(global) => {
                    &&& !old(self).advertises(interface)
                    &&& global == (Global {
                        id: InnerGlobalId {
                            id: (old(self)@.len() + 1) as u32,
                            serial: (old(self)@.len() + 1) as u32,
                        },
                        interface,
                        version,
                        active: true,
                    })
                    &&& final(self)@ == old(self)@.push(global)
                    &&& final(self).holds(global.id)
                },
                Err(e) => {
                    &&& final(self)@ == old(self)@
                    &&& e == if old(self).advertises(interface) {
                        GlobalError::Duplicate
                    } else {
                        GlobalError::Exhausted
                    }
                    &&& old(self).advertises(interface) || old(self)@.len() == MAX_GLOBALS
                },
            },
    {
        if self.is_advertised(interface) {
            return Err(GlobalError::Duplicate);
        }
        if self.globals.len() >= MAX_GLOBALS {
            return Err(GlobalError::Exhausted);
        }
        let number: u32 = (self.globals.len() + 1) as u32;
        let global = Global {
            id: InnerGlobalId { id: number, serial: number },
            interface,
            version,
            active: true,
        };
        self.globals.push(global);
        Ok(global)
    }

    /// Withdraws the global that the id names. Fails with `NotFound` where
    /// the id names no global that is advertised; then nothing changes.
    pub fn remove(&mut self, id: InnerGlobalId) -> (r: Result<Global, GlobalError>)
        requires
            old(self).wf(),
        ensures
            final(self).wf(),
            match r {
                Ok(global) => {
                    &&& old(self).holds(id)
                    &&& global == old(self)@[id.id - 1]
                    &&& final(self)@ == old(self)@.update(
                        id.id - 1,
                        Global { active: false, ..global },
                    )
                    &&& !final(self).active(id.id)
                },
                Err(e) => {
                    &&& e == GlobalError::NotFound
                    &&& !old(self).holds(id)
                    &&& final(self)@ == old(self)@
                },
            },
    {
        if id.id == 0 || id.id as usize > self.globals.len() {
            return Err(GlobalError::NotFound);
        }
        let index: usize = (id.id - 1) as usize;
        let global = self.globals[index];
        if !global.active || global.id != id {
            return Err(GlobalError::NotFound);
        }
        self.globals.set(index, Global { active: false, ..global });
        Ok(global)
    }

    /// The global that a number names, if it is advertised at present.
    pub fn get(&self, name: u32) -> (r: Option<Global>)
        ensures
            match r {
                Some(global) => self.active(name) && global == self@[name - 1],
                None => !self.active(name),
            },
    {
        if name == 0 || name as usize > self.globals.len() {
            return None;
        }
        let global = self.globals[(name - 1) as usize];
        if global.active {
            Some(global)
        } else {
            None
        }
    }

    /// Resolves a bind: the global that `name` names, if it is advertised
    /// with the interface and at least the version asked for.
    pub fn bind_target(&self, name: u32, interface: &[u8], version: u32) -> (r: Result<
        Global,
        ProtocolError,
    >)
        ensures
            r == self.bind_spec(name, interface@, version),
    {
        let global = match self.get(name) {
            None => {
                return Err(ProtocolError::UnknownGlobal);
            },
            Some(global) => global,
        };
        if !bytes_eq(interface, global.interface.name.as_bytes()) || version == 0 || version
            > global.version {
            return Err(ProtocolError::BindMismatch);
        }
        Ok(global)
    }
}

/// A bind is held to the version advertised. For a global that is
/// advertised, a bind by its number and under the name of its interface
/// resolves to the global exactly when the version asked for is at least 1
/// and at most the version advertised; every other version is a mismatch. A
/// bind to a number that names no advertised global is refused whatever it
/// asks for.
pub proof fn lemma_bind_is_held_to_the_version(registry: &Registry, name: u32, version: u32)
    ensures
        registry.active(name) ==> {
            let global = registry@[name - 1];
            let bind = registry.bind_spec(name, global.interface.name.spec_bytes(), version);
            &&& 1 <= version <= global.version ==> bind == Ok::<Global, ProtocolError>(global)
            &&& !(1 <= version <= global.version) ==> bind == Err::<Global, ProtocolError>(
                ProtocolError::BindMismatch,
            )
        },
        !registry.active(name) ==> forall|interface: Seq<u8>| #[trigger]
            registry.bind_spec(name, interface, version) == Err::<Global, ProtocolError>(
                ProtocolError::UnknownGlobal,
            ),
{
}

} // verus!
