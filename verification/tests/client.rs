use wayland_backend::core_interfaces::{CALLBACK_DONE, DISPLAY_SYNC, REGISTRY_BIND};
use wayland_backend::protocol::{Argument, ArgumentType, Interface, MessageDesc};
use wayland_backend::rs::client_impl::{InnerBackend, ObjectData};
use wayland_backend::rs::connection::Delivery;
use wayland_backend::rs::map::{AllocError, UserData};
use wayland_backend::rs::server_impl::InnerObjectId;
use wayland_backend::rs::wire::MessageWriteError;
use wayland_backend::types::{ProtocolError, SendError};

const CALLBACK: Interface = Interface {
    name: "wl_callback",
    version: 1,
    requests: &[],
    events: &[MessageDesc {
        name: "done",
        signature: &[ArgumentType::Uint],
        since: 1,
        is_destructor: true,
        child_interface: None,
    }],
};

const FACTORY: Interface = Interface {
    name: "factory",
    version: 2,
    requests: &[MessageDesc {
        name: "poke",
        signature: &[ArgumentType::Uint, ArgumentType::Fd],
        since: 1,
        is_destructor: false,
        child_interface: None,
    }],
    events: &[MessageDesc {
        name: "made",
        signature: &[ArgumentType::NewId],
        since: 1,
        is_destructor: false,
        child_interface: Some(&CALLBACK),
    }],
};

#[derive(Clone)]
struct Probe(&'static str);

impl ObjectData<Vec<String>> for Probe {
    fn event(
        &self,
        _backend: &mut InnerBackend<Self>,
        state: &mut Vec<String>,
        delivery: Delivery,
    ) -> Option<Self> {
        state.push(format!("{} got {} on {}", self.0, delivery.message.opcode, delivery.target.id));
        delivery.created.first().map(|_| Probe("child"))
    }

    fn destroyed(&self, state: &mut Vec<String>, object: InnerObjectId) {
        state.push(format!("{} lost {}", self.0, object.id));
    }

    fn describe(&self) -> String {
        format!("probe {}", self.0)
    }
}

fn connect() -> (InnerBackend<Probe>, InnerObjectId, InnerObjectId) {
    InnerBackend::connect(Probe("display"), Probe("registry"))
}

fn output(backend: &mut InnerBackend<Probe>) -> (Vec<u8>, Vec<i32>) {
    let mut bytes = Vec::new();
    let mut fds = Vec::new();
    loop {
        let (b, f) = match backend.next_write() {
            Some(plan) => (plan.bytes.to_vec(), plan.fds.to_vec()),
            None => break,
        };
        backend.wrote(b.len());
        bytes.extend(b);
        fds.extend(f);
    }
    (bytes, fds)
}

fn factory(backend: &mut InnerBackend<Probe>, registry: &InnerObjectId) -> InnerObjectId {
    let args = vec![
        Argument::Uint(1),
        Argument::Str(b"factory".to_vec()),
        Argument::Uint(2),
        Argument::NewId(0),
    ];
    let made = backend
        .send_request(registry, REGISTRY_BIND, args, Some(&FACTORY), UserData::Installed(Probe("factory")))
        .unwrap()[0];
    output(backend);
    made
}

#[test]
fn connect_installs_display_and_registry() {
    let (backend, display, registry) = connect();
    assert_eq!((display.id, display.serial), (1, 1));
    assert_eq!((registry.id, registry.serial), (2, 1));
    assert_eq!(display.interface.name, "wl_display");
    assert_eq!(registry.interface.name, "wl_registry");
    let table = &backend.connection().table;
    assert!(table.is_valid(&display));
    assert!(table.is_valid(&registry));
    assert!(table.lookup(3).is_none());
    assert_eq!(backend.buffered(), 0);
    assert!(backend.next_write().is_none());
}

#[test]
fn request_with_a_new_id_creates_the_object_in_the_client_range() {
    let (mut backend, display, _) = connect();
    let created = backend
        .send_request(&display, DISPLAY_SYNC, vec![Argument::NewId(0)], None, UserData::Installed(Probe("cb")))
        .unwrap()[0];
    assert_eq!(created.id, 3);
    assert_eq!(created.serial, 1);
    assert_eq!(created.interface.name, "wl_callback");
    assert!(backend.connection().table.is_valid(&created));
    let (bytes, fds) = output(&mut backend);
    assert_eq!(bytes, vec![1, 0, 0, 0, 0, 0, 12, 0, 3, 0, 0, 0]);
    assert!(fds.is_empty());
}

#[test]
fn placeholder_of_the_new_id_is_replaced() {
    let (mut backend, display, _) = connect();
    backend
        .send_request(&display, DISPLAY_SYNC, vec![Argument::NewId(0xdead)], None, UserData::Uninitialized)
        .unwrap();
    let (bytes, _) = output(&mut backend);
    assert_eq!(&bytes[8..], &[3, 0, 0, 0]);
}

#[test]
fn request_carries_its_file_descriptors() {
    let (mut backend, _, registry) = connect();
    let made = factory(&mut backend, &registry);
    let r = backend.send_request(
        &made,
        0,
        vec![Argument::Uint(6), Argument::Fd(55)],
        None,
        UserData::Uninitialized,
    );
    assert_eq!(r, Ok(vec![]));
    let (bytes, fds) = output(&mut backend);
    assert_eq!(bytes, vec![3, 0, 0, 0, 0, 0, 12, 0, 6, 0, 0, 0]);
    assert_eq!(fds, vec![55]);
}

#[test]
fn send_errors_change_nothing() {
    let (mut backend, display, registry) = connect();
    let stale = InnerObjectId { serial: 9, ..display };
    assert_eq!(
        backend.send_request(&stale, DISPLAY_SYNC, vec![Argument::NewId(0)], None, UserData::Uninitialized),
        Err(SendError::InvalidId)
    );
    assert_eq!(
        backend.send_request(&display, 7, vec![], None, UserData::Uninitialized),
        Err(SendError::InvalidOpcode)
    );
    assert_eq!(
        backend.send_request(&display, DISPLAY_SYNC, vec![Argument::Uint(1)], None, UserData::Uninitialized),
        Err(SendError::BadMessage(MessageWriteError::InvalidArguments))
    );
    let bind = vec![Argument::Uint(1), Argument::Str(vec![b'x'; 0xFFF0]), Argument::Uint(1), Argument::NewId(0)];
    assert_eq!(
        backend.send_request(&registry, REGISTRY_BIND, bind, Some(&FACTORY), UserData::Uninitialized),
        Err(SendError::BadMessage(MessageWriteError::TooLong))
    );
    let bind = vec![Argument::Uint(1), Argument::Str(b"x".to_vec()), Argument::Uint(1), Argument::NewId(0)];
    assert_eq!(
        backend.send_request(&registry, REGISTRY_BIND, bind, None, UserData::Uninitialized),
        Err(SendError::MissingChildInterface)
    );
    assert!(backend.next_write().is_none());
    assert!(backend.connection().table.lookup(3).is_none());
}

#[test]
fn dispatch_delivers_events_and_retires_the_target_of_a_destructor() {
    let (mut backend, display, _) = connect();
    let callback = backend
        .send_request(&display, DISPLAY_SYNC, vec![Argument::NewId(0)], None, UserData::Installed(Probe("cb")))
        .unwrap()[0];
    backend.receive(&[3, 0, 0, 0, 0, 0, 12, 0, 77, 0, 0, 0], &[]).unwrap();
    let mut log = Vec::new();
    assert_eq!(backend.dispatch_pending(&mut log), Ok(1));
    assert_eq!(log, vec!["cb got 0 on 3".to_string(), "cb lost 3".to_string()]);
    assert!(!backend.connection().table.is_valid(&callback));
    assert_eq!(backend.buffered(), 0);
    // A second event for the same number finds no object.
    backend.receive(&[3, 0, 0, 0, 0, 0, 12, 0, 77, 0, 0, 0], &[]).unwrap();
    assert_eq!(backend.dispatch_pending(&mut log), Err(ProtocolError::UnknownObject));
}

#[test]
fn event_for_a_reused_number_reaches_the_new_object() {
    let (mut backend, display, _) = connect();
    let first = backend
        .send_request(&display, DISPLAY_SYNC, vec![Argument::NewId(0)], None, UserData::Installed(Probe("first")))
        .unwrap()[0];
    backend.receive(&[3, 0, 0, 0, 0, 0, 12, 0, 1, 0, 0, 0], &[]).unwrap();
    let mut log = Vec::new();
    backend.dispatch_pending(&mut log).unwrap();
    let second = backend
        .send_request(&display, DISPLAY_SYNC, vec![Argument::NewId(0)], None, UserData::Installed(Probe("second")))
        .unwrap()[0];
    assert_eq!(second.id, first.id);
    assert_eq!(second.serial, first.serial + 1);
    assert_ne!(second, first);
    assert!(!backend.connection().table.is_valid(&first));
    assert_eq!(
        backend.send_request(&first, 0, vec![], None, UserData::Uninitialized),
        Err(SendError::InvalidId)
    );
    backend.receive(&[3, 0, 0, 0, 0, 0, 12, 0, 2, 0, 0, 0], &[]).unwrap();
    let delivery = backend.next_event().unwrap().unwrap();
    assert_eq!(delivery.target, second);
    assert_ne!(delivery.target, first);
}

#[test]
fn incomplete_event_waits_for_more_bytes() {
    let (mut backend, _, _) = connect();
    let mut log = Vec::new();
    backend.receive(&[2, 0, 0], &[]).unwrap();
    assert_eq!(backend.dispatch_pending(&mut log), Ok(0));
    backend.receive(&[0, 1, 0, 12, 0, 5], &[]).unwrap();
    assert!(backend.next_event().unwrap().is_none());
    assert_eq!(backend.buffered(), 9);
    backend.receive(&[0, 0, 0], &[]).unwrap();
    assert_eq!(backend.dispatch_pending(&mut log), Ok(1));
    assert_eq!(log, vec!["registry got 1 on 2".to_string()]);
}

#[test]
fn events_are_delivered_in_the_order_of_their_arrival() {
    let (mut backend, _, _) = connect();
    let mut bytes = vec![2, 0, 0, 0, 1, 0, 12, 0, 5, 0, 0, 0];
    bytes.extend_from_slice(&[1, 0, 0, 0, 0, 0, 20, 0, 0, 0, 0, 0, 1, 0, 0, 0, 0, 0, 0, 0]);
    bytes.extend_from_slice(&[2, 0, 0, 0, 1, 0, 12, 0, 6, 0, 0, 0]);
    backend.receive(&bytes, &[]).unwrap();
    let mut log = Vec::new();
    assert_eq!(backend.dispatch_pending(&mut log), Ok(3));
    assert_eq!(
        log,
        vec![
            "registry got 1 on 2".to_string(),
            "display got 0 on 1".to_string(),
            "registry got 1 on 2".to_string(),
        ]
    );
}

#[test]
fn violations_leave_table_and_input_as_they_were() {
    let (mut backend, _, _) = connect();
    backend.receive(&[9, 0, 0, 0, 0, 0, 8, 0], &[]).unwrap();
    assert_eq!(backend.next_event().err(), Some(ProtocolError::UnknownObject));
    assert_eq!(backend.buffered(), 8);

    let (mut backend, _, _) = connect();
    backend.receive(&[2, 0, 0, 0, 2, 0, 8, 0], &[]).unwrap();
    assert_eq!(backend.next_event().err(), Some(ProtocolError::InvalidOpcode));

    let (mut backend, _, _) = connect();
    backend.receive(&[2, 0, 0, 0, 1, 0, 8, 0], &[]).unwrap();
    assert_eq!(backend.next_event().err(), Some(ProtocolError::Malformed));
    assert_eq!(backend.buffered(), 8);
}

#[test]
fn server_names_new_objects_in_its_own_range() {
    let (mut backend, _, registry) = connect();
    let made = factory(&mut backend, &registry);
    backend.receive(&[3, 0, 0, 0, 0, 0, 12, 0, 0, 0, 0, 0xff], &[]).unwrap();
    let delivery = backend.next_event().unwrap().unwrap();
    let child = delivery.created[0];
    assert_eq!(child.id, 0xff00_0000);
    assert_eq!(child.interface.name, "wl_callback");
    assert_eq!(delivery.target, made);
    assert!(!delivery.is_destructor);
    // Nothing is attached to the object until its handling is finished.
    assert!(matches!(
        backend.connection().table.get(&child).unwrap().data,
        UserData::Uninitialized
    ));
    backend.receive(&[0, 0, 0, 0xff, 0, 0, 12, 0, 1, 0, 0, 0], &[]).unwrap();
    assert_eq!(backend.next_event().err(), Some(ProtocolError::UninitializedObject));
    assert!(backend
        .finish_event(&delivery.target, false, Some(child), Some(Probe("child")))
        .is_none());
    let done = backend.next_event().unwrap().unwrap();
    assert_eq!(done.target, child);
    assert!(done.is_destructor);
    let gone = backend.finish_event(&done.target, true, None, None).unwrap();
    assert!(matches!(gone.data, UserData::Installed(Probe("child"))));
    assert!(!backend.connection().table.is_valid(&child));
}

#[test]
fn new_object_of_the_server_in_the_client_range_is_a_violation() {
    let (mut backend, _, registry) = connect();
    factory(&mut backend, &registry);
    backend.receive(&[3, 0, 0, 0, 0, 0, 12, 0, 4, 0, 0, 0], &[]).unwrap();
    assert_eq!(
        backend.next_event().err(),
        Some(ProtocolError::InvalidNewId(AllocError::RangeViolation))
    );
    assert!(backend.connection().table.lookup(4).is_none());
    assert_eq!(backend.buffered(), 12);
}

const CROWD: Interface = Interface {
    name: "crowd",
    version: 1,
    requests: &[MessageDesc {
        name: "flood",
        signature: &[ArgumentType::Fd; 29],
        since: 1,
        is_destructor: false,
        child_interface: None,
    }],
    events: &[MessageDesc {
        name: "orphan",
        signature: &[ArgumentType::NewId],
        since: 1,
        is_destructor: false,
        child_interface: None,
    }],
};

fn crowd(backend: &mut InnerBackend<Probe>, registry: &InnerObjectId) -> InnerObjectId {
    let args = vec![
        Argument::Uint(1),
        Argument::Str(b"crowd".to_vec()),
        Argument::Uint(1),
        Argument::NewId(0),
    ];
    let made = backend
        .send_request(registry, REGISTRY_BIND, args, Some(&CROWD), UserData::Installed(Probe("crowd")))
        .unwrap()[0];
    output(backend);
    made
}

#[test]
fn more_descriptors_than_one_write_carries_are_refused() {
    let (mut backend, _, registry) = connect();
    let object = crowd(&mut backend, &registry);
    let args: Vec<Argument> = (0..29).map(Argument::Fd).collect();
    assert_eq!(
        backend.send_request(&object, 0, args, None, UserData::Uninitialized),
        Err(SendError::TooManyFds)
    );
    assert!(backend.next_write().is_none());
}

#[test]
fn event_that_creates_an_object_of_unknown_interface_is_a_violation() {
    let (mut backend, _, registry) = connect();
    crowd(&mut backend, &registry);
    backend.receive(&[3, 0, 0, 0, 0, 0, 12, 0, 0, 0, 0, 0xff], &[]).unwrap();
    assert_eq!(backend.next_event().err(), Some(ProtocolError::MissingChildInterface));
    assert_eq!(backend.buffered(), 12);
    assert!(backend.connection().table.lookup(0xff00_0000).is_none());
}

#[test]
fn events_carry_their_file_descriptors_in_order() {
    let (mut backend, _, _) = connect();
    // The error event of the display has no descriptor; what arrives with
    // it stays queued for the message that asks for it.
    backend
        .receive(&[1, 0, 0, 0, 0, 0, 20, 0, 0, 0, 0, 0, 1, 0, 0, 0, 0, 0, 0, 0], &[8, 9])
        .unwrap();
    let delivery = backend.next_event().unwrap().unwrap();
    assert_eq!(
        delivery.message.args.as_slice(),
        &[Argument::Object(0), Argument::Uint(1), Argument::Str(Vec::new())]
    );
    assert_eq!(backend.connection().socket.input_fds(), 2);
    assert_eq!(CALLBACK_DONE, 0);
}

#[test]
fn a_pass_that_starts_with_a_violation_changes_nothing() {
    let (mut backend, display, registry) = connect();
    backend.receive(&[9, 0, 0, 0, 0, 0, 8, 0, 2, 0, 0, 0, 1, 0, 12, 0, 5, 0, 0, 0], &[4]).unwrap();
    let mut log = Vec::new();
    assert_eq!(backend.dispatch_pending(&mut log), Err(ProtocolError::UnknownObject));
    assert!(log.is_empty());
    assert_eq!(backend.buffered(), 20);
    assert_eq!(backend.connection().socket.input_fds(), 1);
    assert!(backend.connection().table.is_valid(&display));
    assert!(backend.connection().table.is_valid(&registry));
    assert!(backend.next_write().is_none());
}

#[test]
fn a_pass_without_a_whole_message_delivers_nothing() {
    let (mut backend, _, _) = connect();
    let mut log = Vec::new();
    assert_eq!(backend.dispatch_pending(&mut log), Ok(0));
    backend.receive(&[2, 0, 0, 0, 1, 0, 12, 0, 5, 0, 0], &[]).unwrap();
    assert_eq!(backend.dispatch_pending(&mut log), Ok(0));
    assert_eq!(backend.buffered(), 11);
    assert!(log.is_empty());
}

#[test]
fn incomplete_event_for_an_object_without_data_is_waited_for() {
    let (mut backend, _, registry) = connect();
    factory(&mut backend, &registry);
    backend.receive(&[3, 0, 0, 0, 0, 0, 12, 0, 0, 0, 0, 0xff], &[]).unwrap();
    let delivery = backend.next_event().unwrap().unwrap();
    let child = delivery.created[0];
    // Nothing is attached to the new object yet; the start of an event for
    // it is no violation.
    let mut log = Vec::new();
    for part in [&[0u8, 0, 0, 0xff, 0, 0, 12, 0][..], &[1, 0][..], &[0][..]] {
        backend.receive(part, &[]).unwrap();
        assert!(backend.next_event().unwrap().is_none());
        assert_eq!(backend.dispatch_pending(&mut log), Ok(0));
        assert!(backend.connection().table.is_valid(&child));
    }
    assert_eq!(backend.buffered(), 11);
    // Only the whole event is held against the missing data.
    backend.receive(&[0], &[]).unwrap();
    assert_eq!(backend.next_event().err(), Some(ProtocolError::UninitializedObject));
    assert!(log.is_empty());
}

#[test]
fn incomplete_event_for_an_unknown_object_is_waited_for() {
    let (mut backend, _, _) = connect();
    backend.receive(&[9, 0, 0, 0, 0, 0, 12, 0, 1], &[]).unwrap();
    assert!(backend.next_event().unwrap().is_none());
    assert_eq!(backend.buffered(), 9);
    backend.receive(&[0, 0, 0], &[]).unwrap();
    assert_eq!(backend.next_event().err(), Some(ProtocolError::UnknownObject));
}

const TWINS: Interface = Interface {
    name: "twins",
    version: 1,
    requests: &[MessageDesc {
        name: "pair",
        signature: &[ArgumentType::NewId, ArgumentType::Uint, ArgumentType::NewId],
        since: 1,
        is_destructor: false,
        child_interface: Some(&CALLBACK),
    }],
    events: &[MessageDesc {
        name: "pair",
        signature: &[ArgumentType::NewId, ArgumentType::NewId],
        since: 1,
        is_destructor: false,
        child_interface: Some(&CALLBACK),
    }],
};

fn twins(backend: &mut InnerBackend<Probe>, registry: &InnerObjectId) -> InnerObjectId {
    let args = vec![
        Argument::Uint(1),
        Argument::Str(b"twins".to_vec()),
        Argument::Uint(1),
        Argument::NewId(0),
    ];
    let made = backend
        .send_request(registry, REGISTRY_BIND, args, Some(&TWINS), UserData::Installed(Probe("twins")))
        .unwrap()[0];
    output(backend);
    made
}

#[test]
fn request_creates_an_object_for_every_new_id() {
    let (mut backend, _, registry) = connect();
    let object = twins(&mut backend, &registry);
    let made = backend
        .send_request(
            &object,
            0,
            vec![Argument::NewId(0), Argument::Uint(9), Argument::NewId(77)],
            None,
            UserData::Installed(Probe("first")),
        )
        .unwrap();
    assert_eq!(made.iter().map(|h| h.id).collect::<Vec<_>>(), vec![4, 5]);
    let (bytes, _) = output(&mut backend);
    assert_eq!(
        bytes,
        vec![3, 0, 0, 0, 0, 0, 20, 0, 4, 0, 0, 0, 9, 0, 0, 0, 5, 0, 0, 0]
    );
    let table = &backend.connection().table;
    assert!(matches!(table.get(&made[0]).unwrap().data, UserData::Installed(Probe("first"))));
    assert!(matches!(table.get(&made[1]).unwrap().data, UserData::Uninitialized));
    assert_eq!(made[1].interface.name, "wl_callback");
}

#[test]
fn event_creates_an_object_for_every_new_id() {
    let (mut backend, _, registry) = connect();
    twins(&mut backend, &registry);
    backend
        .receive(&[3, 0, 0, 0, 0, 0, 16, 0, 0, 0, 0, 0xff, 1, 0, 0, 0xff], &[])
        .unwrap();
    let delivery = backend.next_event().unwrap().unwrap();
    assert_eq!(
        delivery.created.iter().map(|h| (h.id, h.serial)).collect::<Vec<_>>(),
        vec![(0xff00_0000, 1), (0xff00_0001, 1)]
    );
    for handle in &delivery.created {
        assert!(backend.connection().table.is_valid(handle));
    }
    assert_eq!(backend.buffered(), 0);
}

#[test]
fn event_with_a_refused_new_id_creates_nothing() {
    for second in [[5u8, 0, 0, 0], [0, 0, 0, 0xff], [2, 0, 0, 0xff]] {
        let (mut backend, _, registry) = connect();
        twins(&mut backend, &registry);
        let mut bytes = vec![3, 0, 0, 0, 0, 0, 16, 0, 0, 0, 0, 0xff];
        bytes.extend_from_slice(&second);
        backend.receive(&bytes, &[]).unwrap();
        assert!(matches!(backend.next_event(), Err(ProtocolError::InvalidNewId(_))));
        assert!(backend.connection().table.lookup(0xff00_0000).is_none());
        assert_eq!(backend.buffered(), 16);
        let mut log = Vec::new();
        assert!(backend.dispatch_pending(&mut log).is_err());
        assert!(log.is_empty());
    }
    let (mut backend, _, registry) = connect();
    twins(&mut backend, &registry);
    backend.receive(&[3, 0, 0, 0, 0, 0, 16, 0, 0, 0, 0, 0xff, 5, 0, 0, 0], &[]).unwrap();
    assert_eq!(
        backend.next_event().err(),
        Some(ProtocolError::InvalidNewId(AllocError::RangeViolation))
    );
}

#[test]
fn further_objects_get_their_data_installed() {
    let (mut backend, _, registry) = connect();
    let object = twins(&mut backend, &registry);
    let made = backend
        .send_request(
            &object,
            0,
            vec![Argument::NewId(0), Argument::Uint(9), Argument::NewId(0)],
            None,
            UserData::Installed(Probe("first")),
        )
        .unwrap();
    assert_eq!(backend.install(&made[1], Probe("second")), Ok(()));
    assert!(matches!(
        backend.connection().table.get(&made[1]).unwrap().data,
        UserData::Installed(Probe("second"))
    ));
    let stale = InnerObjectId { serial: 9, ..made[1] };
    assert!(backend.install(&stale, Probe("stale")).is_err());
}

#[test]
fn too_many_descriptors_are_refused_and_nothing_is_taken_in() {
    let (mut backend, _, _) = connect();
    let many: Vec<i32> = (0..112).collect();
    assert_eq!(backend.receive(&[1, 2], &many), Ok(()));
    assert_eq!(
        backend.receive(&[3], &[7]),
        Err(wayland_backend::rs::socket::TransportError::FdOverflow)
    );
    assert_eq!(backend.buffered(), 2);
    assert_eq!(backend.connection().socket.input_fds(), 112);
    assert_eq!(backend.receive(&[3], &[]), Ok(()));
    assert_eq!(backend.buffered(), 3);
}
