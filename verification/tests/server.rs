use wayland_backend::core_interfaces::{CALLBACK_DONE, DISPLAY_SYNC, REGISTRY_BIND};
use wayland_backend::protocol::{Argument, ArgumentType, Interface, MessageDesc};
use wayland_backend::rs::client_impl::InnerBackend;
use wayland_backend::rs::connection::Delivery;
use wayland_backend::rs::map::UserData;
use wayland_backend::rs::server_impl::handle::{InnerHandle, ObjectData};
use wayland_backend::rs::server_impl::{InnerClientId, InnerObjectId};
use wayland_backend::types::{Credentials, DisconnectReason, GlobalError, ProtocolError, SendError};

const DEMO: Interface = Interface {
    name: "demo",
    version: 3,
    requests: &[
        MessageDesc {
            name: "destroy",
            signature: &[],
            since: 1,
            is_destructor: true,
            child_interface: None,
        },
        MessageDesc {
            name: "poke",
            signature: &[ArgumentType::Uint],
            since: 1,
            is_destructor: false,
            child_interface: None,
        },
    ],
    events: &[MessageDesc {
        name: "ping",
        signature: &[ArgumentType::Uint],
        since: 1,
        is_destructor: false,
        child_interface: None,
    }],
};

const OTHER: Interface = Interface { name: "other", version: 1, requests: &[], events: &[] };

#[derive(Clone, Debug, PartialEq)]
struct Probe(&'static str);

impl ObjectData<Vec<String>> for Probe {
    fn request(
        &self,
        handle: &mut InnerHandle<Self>,
        state: &mut Vec<String>,
        client: InnerClientId,
        delivery: Delivery,
    ) -> Option<Self> {
        state.push(format!(
            "{} got {} on {} of client {}",
            self.0, delivery.message.opcode, delivery.target.id, client.id
        ));
        if let Some(created) = delivery.created.first() {
            if created.interface.name == "wl_callback" {
                handle
                    .send_event(created, CALLBACK_DONE, vec![Argument::Uint(1)], None, UserData::Uninitialized)
                    .unwrap();
            }
        }
        delivery.created.first().map(|_| Probe("bound"))
    }

    fn destroyed(&self, state: &mut Vec<String>, client: InnerClientId, object: InnerObjectId) {
        state.push(format!("{} lost {} of client {}", self.0, object.id, client.id));
    }

    fn describe(&self) -> String {
        format!("probe {}", self.0)
    }
}

impl wayland_backend::rs::client_impl::ObjectData<Vec<String>> for Probe {
    fn event(
        &self,
        _backend: &mut InnerBackend<Self>,
        state: &mut Vec<String>,
        delivery: Delivery,
    ) -> Option<Self> {
        state.push(format!("{} heard {}", self.0, delivery.message.opcode));
        None
    }

    fn destroyed(&self, _state: &mut Vec<String>, _object: InnerObjectId) {}

    fn describe(&self) -> String {
        format!("probe {}", self.0)
    }
}

fn creds(pid: i32) -> Credentials {
    Credentials { pid, uid: 1000, gid: 100 }
}

fn accept(server: &mut InnerHandle<Probe>, pid: i32) -> InnerClientId {
    server.accept(creds(pid), Probe("display"), Probe("registry")).unwrap()
}

fn pending(server: &InnerHandle<Probe>, id: &InnerClientId) -> Vec<u8> {
    match server.client_ref(id).unwrap().conn.socket.next_write() {
        Some(plan) => plan.bytes.to_vec(),
        None => Vec::new(),
    }
}

fn client_output(backend: &mut InnerBackend<Probe>) -> Vec<u8> {
    let mut bytes = Vec::new();
    loop {
        let b = match backend.next_write() {
            Some(plan) => plan.bytes.to_vec(),
            None => break,
        };
        backend.wrote(b.len());
        bytes.extend(b);
    }
    bytes
}

fn global_event(name: u8, interface: &[u8], version: u8) -> Vec<u8> {
    let padded = (interface.len() + 3) / 4 * 4;
    let len = 8 + 4 + 4 + padded + 4;
    let mut bytes = vec![2, 0, 0, 0, 0, 0, len as u8, 0, name, 0, 0, 0, interface.len() as u8, 0, 0, 0];
    bytes.extend_from_slice(interface);
    bytes.resize(16 + padded, 0);
    bytes.extend_from_slice(&[version, 0, 0, 0]);
    bytes
}

fn bind(backend: &mut InnerBackend<Probe>, registry: &InnerObjectId, name: u32, version: u32) -> InnerObjectId {
    let args = vec![
        Argument::Uint(name),
        Argument::Str(b"demo".to_vec()),
        Argument::Uint(version),
        Argument::NewId(0),
    ];
    backend
        .send_request(registry, REGISTRY_BIND, args, Some(&DEMO), UserData::Installed(Probe("proxy")))
        .unwrap()[0]
}

#[test]
fn accept_installs_the_bootstrap_objects_and_keeps_the_credentials() {
    let mut server: InnerHandle<Probe> = InnerHandle::new();
    let id = accept(&mut server, 42);
    let client = server.client_ref(&id).unwrap();
    assert_eq!(client.id, id);
    assert_eq!(client.credentials, creds(42));
    let (display, object) = client.conn.table.lookup(1).unwrap();
    assert_eq!(display.interface.name, "wl_display");
    assert_eq!(display.client_id, id);
    assert!(matches!(&object.data, UserData::Installed(Probe("display"))));
    let (registry, _) = client.conn.table.lookup(2).unwrap();
    assert_eq!(registry.interface.name, "wl_registry");
    assert!(client.conn.table.lookup(3).is_none());
    assert!(client.conn.socket.input().is_empty());
    assert!(pending(&server, &id).is_empty());
}

#[test]
fn bind_at_the_advertised_version_creates_the_object() {
    let mut server: InnerHandle<Probe> = InnerHandle::new();
    let global = server.create_global(&DEMO, 3).unwrap();
    assert_eq!(global.id, 1);
    let id = accept(&mut server, 1);
    // The global is advertised to the new client by itself.
    let advertised = pending(&server, &id);
    assert_eq!(advertised, global_event(1, b"demo", 3));

    let (mut backend, _, registry) = InnerBackend::connect(Probe("d"), Probe("r"));
    backend.receive(&advertised, &[]).unwrap();
    let heard = backend.next_event().unwrap().unwrap();
    assert_eq!(heard.target, registry);
    assert_eq!(
        heard.message.args.as_slice(),
        &[Argument::Uint(1), Argument::Str(b"demo".to_vec()), Argument::Uint(3)]
    );

    let proxy = bind(&mut backend, &registry, 1, 3);
    server.receive(&id, &client_output(&mut backend), &[]).unwrap().unwrap();
    let delivery = server.next_request(&id).unwrap().unwrap().unwrap();
    let created = delivery.created[0];
    assert_eq!(created.id, proxy.id);
    assert_eq!(created.interface.name, "demo");
    assert_eq!(created.client_id, id);
    assert_eq!(delivery.target.id, 2);
    let client = server.client_ref(&id).unwrap();
    assert!(client.conn.table.is_valid(&created));
    assert_eq!(client.conn.table.get(&created).unwrap().version, 3);
    assert!(server
        .finish_request(&id, &delivery.target, delivery.is_destructor, Some(created), Some(Probe("bound")))
        .is_none());
    let client = server.client_ref(&id).unwrap();
    assert!(matches!(
        &client.conn.table.get(&created).unwrap().data,
        UserData::Installed(Probe("bound"))
    ));
}

#[test]
fn bind_at_a_later_version_is_a_mismatch() {
    let mut server: InnerHandle<Probe> = InnerHandle::new();
    server.create_global(&DEMO, 3).unwrap();
    let id = accept(&mut server, 1);
    let (mut backend, _, registry) = InnerBackend::connect(Probe("d"), Probe("r"));
    bind(&mut backend, &registry, 1, 4);
    server.receive(&id, &client_output(&mut backend), &[]).unwrap().unwrap();
    assert!(matches!(server.next_request(&id), Some(Err(ProtocolError::BindMismatch))));
    // Nothing was created and nothing consumed.
    let client = server.client_ref(&id).unwrap();
    assert!(client.conn.table.lookup(3).is_none());
    assert_eq!(client.conn.socket.input().len(), 28);
}

#[test]
fn bind_violations() {
    let mut server: InnerHandle<Probe> = InnerHandle::new();
    server.create_global(&DEMO, 3).unwrap();
    let request = |name: u32, interface: &[u8], version: u32| {
        let (mut backend, _, registry) = InnerBackend::connect(Probe("d"), Probe("r"));
        let args = vec![
            Argument::Uint(name),
            Argument::Str(interface.to_vec()),
            Argument::Uint(version),
            Argument::NewId(0),
        ];
        backend
            .send_request(&registry, REGISTRY_BIND, args, Some(&DEMO), UserData::Uninitialized)
            .unwrap();
        client_output(&mut backend)
    };
    let mut outcome = |bytes: Vec<u8>| {
        let id = accept(&mut server, 1);
        server.receive(&id, &bytes, &[]).unwrap().unwrap();
        let r = server.next_request(&id).unwrap();
        server.disconnect(&id, DisconnectReason::ClosedByPeer).unwrap();
        r.map(|d| d.and_then(|d| d.created.first().copied()).map(|c| c.interface.name))
    };
    assert_eq!(outcome(request(1, b"demo", 1)), Ok(Some("demo")));
    assert_eq!(outcome(request(1, b"demo", 3)), Ok(Some("demo")));
    assert_eq!(outcome(request(1, b"demo", 0)), Err(ProtocolError::BindMismatch));
    assert_eq!(outcome(request(1, b"demo", 4)), Err(ProtocolError::BindMismatch));
    assert_eq!(outcome(request(1, b"demos", 3)), Err(ProtocolError::BindMismatch));
    assert_eq!(outcome(request(1, b"", 3)), Err(ProtocolError::BindMismatch));
    assert_eq!(outcome(request(2, b"demo", 3)), Err(ProtocolError::UnknownGlobal));
    assert_eq!(outcome(request(0, b"demo", 3)), Err(ProtocolError::UnknownGlobal));
}

#[test]
fn bind_to_a_withdrawn_global_is_a_violation() {
    let mut server: InnerHandle<Probe> = InnerHandle::new();
    let global = server.create_global(&DEMO, 3).unwrap();
    let id = accept(&mut server, 1);
    server.remove_global(global).unwrap();
    let (mut backend, _, registry) = InnerBackend::connect(Probe("d"), Probe("r"));
    bind(&mut backend, &registry, 1, 3);
    server.receive(&id, &client_output(&mut backend), &[]).unwrap().unwrap();
    assert!(matches!(server.next_request(&id), Some(Err(ProtocolError::UnknownGlobal))));
}

#[test]
fn disconnecting_one_client_leaves_the_others_alone() {
    let mut server: InnerHandle<Probe> = InnerHandle::new();
    server.create_global(&DEMO, 3).unwrap();
    let a = accept(&mut server, 1);
    let b = accept(&mut server, 2);
    server.receive(&b, &[1, 0, 0, 0, 0], &[]).unwrap().unwrap();
    let b_output = pending(&server, &b);
    assert_eq!(b_output, global_event(1, b"demo", 3));
    let b_display = server.client_ref(&b).unwrap().conn.table.lookup(1).unwrap().0;

    let gone = server.disconnect(&a, DisconnectReason::IoError).unwrap();
    assert_eq!(gone.client_id, a);
    assert_eq!(gone.reason, DisconnectReason::IoError);
    assert_eq!(gone.credentials, creds(1));
    assert_eq!(gone.objects.iter().map(|(h, _)| h.id).collect::<Vec<_>>(), vec![1, 2]);
    assert!(server.client_ref(&a).is_none());
    assert!(server.disconnect(&a, DisconnectReason::IoError).is_none());

    let client = server.client_ref(&b).unwrap();
    assert_eq!(client.credentials, creds(2));
    assert_eq!(client.conn.table.lookup(1).unwrap().0, b_display);
    assert!(client.conn.table.lookup(2).is_some());
    assert_eq!(client.conn.socket.input(), &[1, 0, 0, 0, 0]);
    assert_eq!(pending(&server, &b), b_output);

    // A client that connects afterwards is told of the same globals.
    let c = accept(&mut server, 3);
    assert_eq!(pending(&server, &c), global_event(1, b"demo", 3));
    // It took the number of the first client, with a new serial.
    assert_eq!(c.id, a.id);
    assert_ne!(c, a);
    assert!(server.client_ref(&a).is_none());
}

#[test]
fn violation_disconnects_the_offending_client_only() {
    let mut server: InnerHandle<Probe> = InnerHandle::new();
    let a = accept(&mut server, 1);
    let b = accept(&mut server, 2);
    server.receive(&a, &[99, 0, 0, 0, 0, 0, 8, 0], &[]).unwrap().unwrap();
    let mut log = Vec::new();
    assert_eq!(
        server.dispatch_client(&a, &mut log),
        Err(DisconnectReason::ProtocolViolation(ProtocolError::UnknownObject))
    );
    assert_eq!(
        log,
        vec!["display lost 1 of client 0".to_string(), "registry lost 2 of client 0".to_string()]
    );
    assert!(server.client_ref(&a).is_none());
    assert!(server.client_ref(&b).is_some());
    assert_eq!(server.dispatch_client(&b, &mut log), Ok(0));
    assert_eq!(server.dispatch_client(&a, &mut log), Ok(0));
}

#[test]
fn sync_is_answered_from_the_request_handler() {
    let mut server: InnerHandle<Probe> = InnerHandle::new();
    let id = accept(&mut server, 1);
    let (mut backend, display, _) = InnerBackend::connect(Probe("d"), Probe("r"));
    let callback = backend
        .send_request(&display, DISPLAY_SYNC, vec![Argument::NewId(0)], None, UserData::Installed(Probe("cb")))
        .unwrap()[0];
    server.receive(&id, &client_output(&mut backend), &[]).unwrap().unwrap();
    let mut log = Vec::new();
    assert_eq!(server.dispatch_client(&id, &mut log), Ok(1));
    assert_eq!(log, vec!["display got 0 on 1 of client 0".to_string()]);
    let answer = pending(&server, &id);
    assert_eq!(answer, vec![3, 0, 0, 0, 0, 0, 12, 0, 1, 0, 0, 0]);
    // The callback ended with its event, on both sides.
    assert!(server.client_ref(&id).unwrap().conn.table.lookup(3).is_none());
    backend.receive(&answer, &[]).unwrap();
    let mut heard = Vec::new();
    assert_eq!(backend.dispatch_pending(&mut heard), Ok(1));
    assert_eq!(heard, vec!["cb heard 0".to_string()]);
    assert!(!backend.connection().table.is_valid(&callback));
}

#[test]
fn destructor_request_retires_its_target() {
    let mut server: InnerHandle<Probe> = InnerHandle::new();
    server.create_global(&DEMO, 3).unwrap();
    let id = accept(&mut server, 1);
    let (mut backend, _, registry) = InnerBackend::connect(Probe("d"), Probe("r"));
    let proxy = bind(&mut backend, &registry, 1, 2);
    backend.send_request(&proxy, 0, vec![], None, UserData::Uninitialized).unwrap();
    assert!(!backend.connection().table.is_valid(&proxy));
    server.receive(&id, &client_output(&mut backend), &[]).unwrap().unwrap();
    let mut log = Vec::new();
    assert_eq!(server.dispatch_client(&id, &mut log), Ok(2));
    assert_eq!(
        log,
        vec![
            "registry got 0 on 2 of client 0".to_string(),
            "bound got 0 on 3 of client 0".to_string(),
            "bound lost 3 of client 0".to_string(),
        ]
    );
    assert!(server.client_ref(&id).unwrap().conn.table.lookup(3).is_none());
}

#[test]
fn globals_are_announced_and_withdrawn_to_every_client() {
    let mut server: InnerHandle<Probe> = InnerHandle::new();
    let a = accept(&mut server, 1);
    let b = accept(&mut server, 2);
    let demo = server.create_global(&DEMO, 3).unwrap();
    let other = server.create_global(&OTHER, 1).unwrap();
    assert_eq!((demo.id, other.id), (1, 2));
    let mut expected = global_event(1, b"demo", 3);
    expected.extend(global_event(2, b"other", 1));
    assert_eq!(pending(&server, &a), expected);
    assert_eq!(pending(&server, &b), expected);
    server.remove_global(demo).unwrap();
    expected.extend_from_slice(&[2, 0, 0, 0, 1, 0, 12, 0, 1, 0, 0, 0]);
    assert_eq!(pending(&server, &a), expected);
    assert_eq!(pending(&server, &b), expected);
    // A later client hears of the global that is left, and of no other.
    let c = accept(&mut server, 3);
    assert_eq!(pending(&server, &c), global_event(2, b"other", 1));
}

#[test]
fn global_errors_concern_the_call_alone() {
    let mut server: InnerHandle<Probe> = InnerHandle::new();
    let a = accept(&mut server, 1);
    let demo = server.create_global(&DEMO, 3).unwrap();
    let before = pending(&server, &a);
    assert_eq!(server.create_global(&DEMO, 2), Err(GlobalError::Duplicate));
    assert_eq!(
        server.remove_global(wayland_backend::rs::server_impl::InnerGlobalId { id: 5, serial: 5 }),
        Err(GlobalError::NotFound)
    );
    assert_eq!(
        server.remove_global(wayland_backend::rs::server_impl::InnerGlobalId { id: 1, serial: 9 }),
        Err(GlobalError::NotFound)
    );
    assert_eq!(pending(&server, &a), before);
    assert_eq!(server.globals().globals().len(), 1);
    server.remove_global(demo).unwrap();
    assert_eq!(server.remove_global(demo), Err(GlobalError::NotFound));
    // Once withdrawn, the interface can be advertised again, under a new number.
    assert_eq!(server.create_global(&DEMO, 3).unwrap().id, 2);
}

#[test]
fn events_go_to_the_client_that_owns_the_object() {
    let mut server: InnerHandle<Probe> = InnerHandle::new();
    server.create_global(&DEMO, 3).unwrap();
    let a = accept(&mut server, 1);
    let b = accept(&mut server, 2);
    let (mut backend, _, registry) = InnerBackend::connect(Probe("d"), Probe("r"));
    bind(&mut backend, &registry, 1, 3);
    server.receive(&b, &client_output(&mut backend), &[]).unwrap().unwrap();
    let delivery = server.next_request(&b).unwrap().unwrap().unwrap();
    let object = delivery.created[0];
    let a_before = pending(&server, &a);
    let b_before = pending(&server, &b);
    assert_eq!(
        server.send_event(&object, 0, vec![Argument::Uint(7)], None, UserData::Uninitialized),
        Ok(vec![])
    );
    assert_eq!(pending(&server, &a), a_before);
    let mut expected = b_before;
    expected.extend_from_slice(&[3, 0, 0, 0, 0, 0, 12, 0, 7, 0, 0, 0]);
    assert_eq!(pending(&server, &b), expected);
    // The same handle means nothing once its client is gone.
    server.disconnect(&b, DisconnectReason::ClosedByPeer).unwrap();
    assert_eq!(
        server.send_event(&object, 0, vec![Argument::Uint(7)], None, UserData::Uninitialized),
        Err(SendError::InvalidId)
    );
}

#[test]
fn operations_on_an_unknown_client_do_nothing() {
    let mut server: InnerHandle<Probe> = InnerHandle::new();
    let nobody = InnerClientId { id: 4, serial: 1 };
    assert!(server.receive(&nobody, &[1], &[]).is_none());
    assert!(server.next_request(&nobody).is_none());
    assert!(!server.wrote(&nobody, 0));
    assert_eq!(server.buffered(&nobody), 0);
    assert!(server.client_ref(&nobody).is_none());
    let mut log = Vec::new();
    assert!(!server.kill_client(&nobody, DisconnectReason::ClosedByPeer, &mut log));
    assert!(log.is_empty());
}

#[test]
fn written_bytes_leave_the_queue() {
    let mut server: InnerHandle<Probe> = InnerHandle::new();
    server.create_global(&DEMO, 3).unwrap();
    let id = accept(&mut server, 1);
    let all = pending(&server, &id);
    assert!(server.wrote(&id, 5));
    assert_eq!(pending(&server, &id), all[5..].to_vec());
    assert!(!server.wrote(&id, all.len()));
    assert_eq!(pending(&server, &id), all[5..].to_vec());
    assert!(server.wrote(&id, all.len() - 5));
    assert!(pending(&server, &id).is_empty());
}

#[test]
fn a_pass_that_starts_with_a_violation_spares_the_others() {
    let mut server: InnerHandle<Probe> = InnerHandle::new();
    server.create_global(&DEMO, 3).unwrap();
    let a = accept(&mut server, 1);
    let b = accept(&mut server, 2);
    server.receive(&b, &[1, 0, 0], &[]).unwrap().unwrap();
    let b_output = pending(&server, &b);
    // An opcode that the display does not have.
    server.receive(&a, &[1, 0, 0, 0, 9, 0, 8, 0], &[]).unwrap().unwrap();
    let mut log = Vec::new();
    assert_eq!(
        server.dispatch_client(&a, &mut log),
        Err(DisconnectReason::ProtocolViolation(ProtocolError::InvalidOpcode))
    );
    assert!(server.client_ref(&a).is_none());
    let client = server.client_ref(&b).unwrap();
    assert_eq!(client.conn.socket.input(), &[1, 0, 0]);
    assert!(client.conn.table.lookup(1).is_some());
    assert!(client.conn.table.lookup(2).is_some());
    assert_eq!(pending(&server, &b), b_output);
    assert_eq!(server.globals().globals().len(), 1);
    assert!(server.globals().globals()[0].active);
}

#[test]
fn a_pass_without_a_whole_request_delivers_nothing() {
    let mut server: InnerHandle<Probe> = InnerHandle::new();
    let a = accept(&mut server, 1);
    let mut log = Vec::new();
    assert_eq!(server.dispatch_client(&a, &mut log), Ok(0));
    server.receive(&a, &[1, 0, 0, 0, 0, 0, 12, 0, 3], &[]).unwrap().unwrap();
    assert_eq!(server.dispatch_client(&a, &mut log), Ok(0));
    assert_eq!(server.buffered(&a), 9);
    assert!(log.is_empty());
    assert!(server.client_ref(&a).unwrap().conn.table.lookup(3).is_none());
}

#[test]
fn incomplete_request_for_an_object_without_data_keeps_the_client() {
    let mut server: InnerHandle<Probe> = InnerHandle::new();
    server.create_global(&DEMO, 3).unwrap();
    let id = accept(&mut server, 1);
    let (mut backend, _, registry) = InnerBackend::connect(Probe("d"), Probe("r"));
    let proxy = bind(&mut backend, &registry, 1, 3);
    server.receive(&id, &client_output(&mut backend), &[]).unwrap().unwrap();
    // The object is created, and nothing is attached to it yet.
    let delivery = server.next_request(&id).unwrap().unwrap().unwrap();
    assert_eq!(delivery.created[0].id, proxy.id);
    // The header of a request for it, and all but the last byte of the
    // rest.
    let mut log = Vec::new();
    for part in [&[3u8, 0, 0, 0, 1, 0, 12, 0][..], &[5, 0, 0][..]] {
        server.receive(&id, part, &[]).unwrap().unwrap();
        assert!(matches!(server.next_request(&id), Some(Ok(None))));
        assert_eq!(server.dispatch_client(&id, &mut log), Ok(0));
        assert!(log.is_empty());
        let client = server.client_ref(&id).unwrap();
        assert!(client.conn.table.lookup(1).is_some());
        assert!(client.conn.table.lookup(3).is_some());
    }
    assert_eq!(server.buffered(&id), 11);
    // With the last byte the request is whole, and held against the
    // missing data.
    server.receive(&id, &[0], &[]).unwrap().unwrap();
    assert!(matches!(
        server.next_request(&id),
        Some(Err(ProtocolError::UninitializedObject))
    ));
}

#[test]
fn a_client_number_is_given_again_under_the_next_serial() {
    let mut server: InnerHandle<Probe> = InnerHandle::new();
    let first = accept(&mut server, 1);
    assert_eq!((first.id, first.serial), (0, 1));
    let other = accept(&mut server, 2);
    assert_eq!((other.id, other.serial), (1, 1));
    server.disconnect(&first, DisconnectReason::ClosedByPeer).unwrap();
    let second = accept(&mut server, 3);
    assert_eq!((second.id, second.serial), (0, 2));
    assert_ne!(second, first);
    // The id that was kept names nobody, and no handle that bears it names
    // an object of the new client.
    assert!(server.client_ref(&first).is_none());
    let display = server.client_ref(&second).unwrap().conn.table.lookup(1).unwrap().0;
    let kept = InnerObjectId { client_id: first, ..display };
    assert_eq!(
        server.send_event(&kept, 0, vec![], None, UserData::Uninitialized),
        Err(SendError::InvalidId)
    );
    server.disconnect(&second, DisconnectReason::ClosedByPeer).unwrap();
    let third = accept(&mut server, 4);
    assert_eq!((third.id, third.serial), (0, 3));
}

#[test]
fn objects_without_data_are_notified_to_nobody() {
    let mut server: InnerHandle<Probe> = InnerHandle::new();
    server.create_global(&DEMO, 3).unwrap();
    let id = accept(&mut server, 1);
    let (mut backend, _, registry) = InnerBackend::connect(Probe("d"), Probe("r"));
    bind(&mut backend, &registry, 1, 3);
    server.receive(&id, &client_output(&mut backend), &[]).unwrap().unwrap();
    // The object is created and nothing is attached to it.
    let delivery = server.next_request(&id).unwrap().unwrap().unwrap();
    let bound = delivery.created[0];
    assert!(matches!(
        server.client_ref(&id).unwrap().conn.table.get(&bound).unwrap().data,
        UserData::Uninitialized
    ));
    let mut log = Vec::new();
    assert!(server.kill_client(&id, DisconnectReason::ClosedByPeer, &mut log));
    assert_eq!(
        log,
        vec!["display lost 1 of client 0".to_string(), "registry lost 2 of client 0".to_string()]
    );
}

#[test]
fn too_many_descriptors_for_a_client_are_refused() {
    let mut server: InnerHandle<Probe> = InnerHandle::new();
    let id = accept(&mut server, 1);
    let many: Vec<i32> = (0..112).collect();
    assert_eq!(server.receive(&id, &[1], &many), Some(Ok(())));
    assert_eq!(
        server.receive(&id, &[2], &[5]),
        Some(Err(wayland_backend::rs::socket::TransportError::FdOverflow))
    );
    assert_eq!(server.client_ref(&id).unwrap().conn.socket.input(), &[1]);
    assert_eq!(server.receive(&id, &[2], &[]), Some(Ok(())));
}

#[test]
fn written_descriptors_leave_the_queue_with_the_first_byte() {
    let mut server: InnerHandle<Probe> = InnerHandle::new();
    server.create_global(&FDS, 1).unwrap();
    let id = accept(&mut server, 1);
    let announced = pending(&server, &id).len();
    assert!(server.wrote(&id, announced));
    let (mut backend, _, registry) = InnerBackend::connect(Probe("d"), Probe("r"));
    let args = vec![
        Argument::Uint(1),
        Argument::Str(b"fds".to_vec()),
        Argument::Uint(1),
        Argument::NewId(0),
    ];
    backend
        .send_request(&registry, REGISTRY_BIND, args, Some(&FDS), UserData::Uninitialized)
        .unwrap();
    server.receive(&id, &client_output(&mut backend), &[]).unwrap().unwrap();
    let object = server.next_request(&id).unwrap().unwrap().unwrap().created[0];
    server
        .send_event(&object, 0, vec![Argument::Fd(40), Argument::Fd(41)], None, UserData::Uninitialized)
        .unwrap();
    let plan = |server: &InnerHandle<Probe>| {
        let client = server.client_ref(&id).unwrap();
        client.conn.socket.next_write().map(|p| (p.bytes.len(), p.fds.to_vec()))
    };
    assert_eq!(plan(&server), Some((8, vec![40, 41])));
    // A write that carried nothing keeps the descriptors.
    assert!(server.wrote(&id, 0));
    assert_eq!(plan(&server), Some((8, vec![40, 41])));
    // The first byte takes them along.
    assert!(server.wrote(&id, 1));
    assert_eq!(plan(&server), Some((7, vec![])));
}

const FDS: Interface = Interface {
    name: "fds",
    version: 1,
    requests: &[],
    events: &[MessageDesc {
        name: "pass",
        signature: &[ArgumentType::Fd, ArgumentType::Fd],
        since: 1,
        is_destructor: false,
        child_interface: None,
    }],
};
