//! The interfaces that every connection starts with: the display, the
//! registry and the one-shot callback.

use crate::protocol::{ArgumentType, Interface, MessageDesc};
use vstd::prelude::*;

verus! {

/// Numeric id of the display object of every connection.
pub const DISPLAY_ID: u32 = 1;

/// Numeric id of the registry object of every connection.
pub const REGISTRY_ID: u32 = 2;

/// Opcode of the display's `sync` request.
pub const DISPLAY_SYNC: u16 = 0;

/// Opcode of the display's `error` event.
pub const DISPLAY_ERROR: u16 = 0;

/// Opcode of the registry's `bind` request.
pub const REGISTRY_BIND: u16 = 0;

/// Opcode of the registry's `global` event.
pub const REGISTRY_GLOBAL: u16 = 0;

/// Opcode of the registry's `global_remove` event.
pub const REGISTRY_GLOBAL_REMOVE: u16 = 1;

/// Opcode of the callback's `done` event.
pub const CALLBACK_DONE: u16 = 0;

/// The one-shot callback: a single `done` event, which also ends the object.
pub fn wl_callback_interface() -> (r: &'static Interface)
    ensures
        r.name@ == "wl_callback"@,
        r.version == 1,
        r.requests@.len() == 0,
        r.events@.len() == 1,
        r.events@[0].signature@ == seq![ArgumentType::Uint],
        r.events@[0].is_destructor,
        r.events@[0].child_interface is None,
{
    let r: &'static Interface = &Interface {
        name: "wl_callback",
        version: 1,
        requests: &[],
        events: &[
            MessageDesc {
                name: "done",
                signature: &[ArgumentType::Uint],
                since: 1,
                is_destructor: true,
                child_interface: None,
            },
        ],
    };
    assert(r.events@[0].signature@ =~= seq![ArgumentType::Uint]);
    r
}

/// The display, root object of a connection: a `sync` request that creates a
/// callback, and an `error` event that names an object, a code and a message.
pub fn wl_display_interface() -> (r: &'static Interface)
    ensures
        r.name@ == "wl_display"@,
        r.version == 1,
        r.requests@.len() == 1,
        r.requests@[0].signature@ == seq![ArgumentType::NewId],
        !r.requests@[0].is_destructor,
        r.requests@[0].child_interface matches Some(child) && child.name@ == "wl_callback"@,
        r.events@.len() == 1,
        r.events@[0].signature@ == seq![
            ArgumentType::Object(crate::protocol::AllowNull::Yes),
            ArgumentType::Uint,
            ArgumentType::Str,
        ],
        !r.events@[0].is_destructor,
        r.events@[0].child_interface is None,
{
    let r: &'static Interface = &Interface {
        name: "wl_display",
        version: 1,
        requests: &[
            MessageDesc {
                name: "sync",
                signature: &[ArgumentType::NewId],
                since: 1,
                is_destructor: false,
                child_interface: Some(
                    &Interface {
                        name: "wl_callback",
                        version: 1,
                        requests: &[],
                        events: &[
                            MessageDesc {
                                name: "done",
                                signature: &[ArgumentType::Uint],
                                since: 1,
                                is_destructor: true,
                                child_interface: None,
                            },
                        ],
                    },
                ),
            },
        ],
        events: &[
            MessageDesc {
                name: "error",
                signature: &[
                    ArgumentType::Object(crate::protocol::AllowNull::Yes),
                    ArgumentType::Uint,
                    ArgumentType::Str,
                ],
                since: 1,
                is_destructor: false,
                child_interface: None,
            },
        ],
    };
    assert(r.requests@[0].signature@ =~= seq![ArgumentType::NewId]);
    assert(r.events@[0].signature@ =~= seq![
        ArgumentType::Object(crate::protocol::AllowNull::Yes),
        ArgumentType::Uint,
        ArgumentType::Str,
    ]);
    r
}

/// The registry: a `bind` request that creates an object bound to a global,
/// a `global` event that announces one, and a `global_remove` event that
/// withdraws one.
pub fn wl_registry_interface() -> (r: &'static Interface)
    ensures
        r.name@ == "wl_registry"@,
        r.version == 1,
        r.requests@.len() == 1,
        r.requests@[0].signature@ == seq![
            ArgumentType::Uint,
            ArgumentType::Str,
            ArgumentType::Uint,
            ArgumentType::NewId,
        ],
        !r.requests@[0].is_destructor,
        r.requests@[0].child_interface is None,
        r.events@.len() == 2,
        r.events@[0].signature@ == seq![ArgumentType::Uint, ArgumentType::Str, ArgumentType::Uint],
        r.events@[1].signature@ == seq![ArgumentType::Uint],
        !r.events@[0].is_destructor,
        !r.events@[1].is_destructor,
        r.events@[0].child_interface is None,
        r.events@[1].child_interface is None,
{
    let r: &'static Interface = &Interface {
        name: "wl_registry",
        version: 1,
        requests: &[
            MessageDesc {
                name: "bind",
                signature: &[
                    ArgumentType::Uint,
                    ArgumentType::Str,
                    ArgumentType::Uint,
                    ArgumentType::NewId,
                ],
                since: 1,
                is_destructor: false,
                child_interface: None,
            },
        ],
        events: &[
            MessageDesc {
                name: "global",
                signature: &[ArgumentType::Uint, ArgumentType::Str, ArgumentType::Uint],
                since: 1,
                is_destructor: false,
                child_interface: None,
            },
            MessageDesc {
                name: "global_remove",
                signature: &[ArgumentType::Uint],
                since: 1,
                is_destructor: false,
                child_interface: None,
            },
        ],
    };
    assert(r.requests@[0].signature@ =~= seq![
        ArgumentType::Uint,
        ArgumentType::Str,
        ArgumentType::Uint,
        ArgumentType::NewId,
    ]);
    assert(r.events@[0].signature@ =~= seq![
        ArgumentType::Uint,
        ArgumentType::Str,
        ArgumentType::Uint,
    ]);
    assert(r.events@[1].signature@ =~= seq![ArgumentType::Uint]);
    r
}

} // verus!
