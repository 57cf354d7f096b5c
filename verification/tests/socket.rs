use wayland_backend::protocol::{Argument, ArgumentType};
use wayland_backend::rs::socket::{BufferedSocket, TransportError, MAX_FDS_IN, MAX_FDS_OUT};
use wayland_backend::rs::wire::MessageParseError;

fn plan(socket: &BufferedSocket) -> Option<(Vec<u8>, Vec<i32>)> {
    socket.next_write().map(|p| (p.bytes.to_vec(), p.fds.to_vec()))
}

#[test]
fn nothing_to_write_on_a_new_socket() {
    let socket = BufferedSocket::new();
    assert!(plan(&socket).is_none());
    assert!(!socket.has_pending_output());
    assert!(socket.input().is_empty());
}

#[test]
fn descriptors_go_with_the_first_write_of_their_message() {
    let mut socket = BufferedSocket::new();
    socket.queue(vec![1, 2, 3, 4], vec![]).unwrap();
    socket.queue(vec![5, 6, 7, 8], vec![40, 41]).unwrap();
    // The first write offers the first message alone, without descriptors.
    assert_eq!(plan(&socket), Some((vec![1, 2, 3, 4], vec![])));
    socket.wrote(4);
    // The descriptors are offered with the first byte of their message.
    assert_eq!(plan(&socket), Some((vec![5, 6, 7, 8], vec![40, 41])));
    socket.wrote(1);
    // And not again after a partial write.
    assert_eq!(plan(&socket), Some((vec![6, 7, 8], vec![])));
    socket.wrote(3);
    assert!(plan(&socket).is_none());
}

#[test]
fn a_write_that_carried_nothing_keeps_the_descriptors() {
    let mut socket = BufferedSocket::new();
    socket.queue(vec![9, 9], vec![7]).unwrap();
    socket.wrote(0);
    assert_eq!(plan(&socket), Some((vec![9, 9], vec![7])));
}

#[test]
fn messages_without_descriptors_share_a_write() {
    let mut socket = BufferedSocket::new();
    socket.queue(vec![1, 2], vec![3]).unwrap();
    socket.queue(vec![4, 5], vec![]).unwrap();
    socket.queue(vec![6], vec![]).unwrap();
    assert_eq!(plan(&socket), Some((vec![1, 2, 4, 5, 6], vec![3])));
    socket.wrote(5);
    assert!(!socket.has_pending_output());
}

#[test]
fn partial_writes_keep_the_order_of_the_bytes() {
    let mut socket = BufferedSocket::new();
    socket.queue(vec![1, 2, 3], vec![]).unwrap();
    socket.wrote(2);
    socket.queue(vec![4, 5], vec![]).unwrap();
    assert_eq!(plan(&socket), Some((vec![3, 4, 5], vec![])));
}

#[test]
fn too_many_descriptors_for_one_message() {
    let mut socket = BufferedSocket::new();
    let fds: Vec<i32> = (0..(MAX_FDS_OUT as i32 + 1)).collect();
    assert_eq!(socket.queue(vec![0], fds), Err(TransportError::FdOverflow));
    assert!(!socket.has_pending_output());
    let fds: Vec<i32> = (0..MAX_FDS_OUT as i32).collect();
    assert_eq!(socket.queue(vec![0], fds), Ok(()));
}

#[test]
fn descriptors_need_bytes_to_travel_with() {
    let mut socket = BufferedSocket::new();
    assert_eq!(socket.queue(vec![], vec![1]), Err(TransportError::NoBytes));
    assert_eq!(socket.queue(vec![], vec![]), Ok(()));
    assert!(!socket.has_pending_output());
}

#[test]
fn received_data_is_appended() {
    let mut socket = BufferedSocket::new();
    socket.receive(&[1, 2], &[10]).unwrap();
    socket.receive(&[3], &[11, 12]).unwrap();
    assert_eq!(socket.input(), &[1, 2, 3]);
    assert_eq!(socket.input_fds(), 3);
    socket.discard(2, 1);
    assert_eq!(socket.input(), &[3]);
    assert_eq!(socket.input_fds(), 2);
}

#[test]
fn received_descriptors_overflow() {
    let mut socket = BufferedSocket::new();
    let fds: Vec<i32> = (0..MAX_FDS_IN as i32).collect();
    socket.receive(&[1], &fds).unwrap();
    assert_eq!(socket.receive(&[2], &[99]), Err(TransportError::FdOverflow));
    assert_eq!(socket.input(), &[1]);
    assert_eq!(socket.input_fds(), MAX_FDS_IN);
    assert_eq!(socket.receive(&[2], &[]), Ok(()));
}

#[test]
fn peek_message_decodes_without_consuming() {
    let mut socket = BufferedSocket::new();
    socket.receive(&[1, 0, 0, 0, 2, 0, 12, 0, 5, 0, 0, 0, 9], &[33]).unwrap();
    let (msg, bytes, fds) = socket.peek_message(&[ArgumentType::Uint]).unwrap();
    assert_eq!((msg.sender_id, msg.opcode, bytes, fds), (1, 2, 12, 0));
    assert_eq!(msg.args.as_slice(), &[Argument::Uint(5)]);
    assert_eq!(socket.input().len(), 13);
    let (msg, bytes, fds) = socket.peek_message(&[ArgumentType::Fd, ArgumentType::Uint]).unwrap();
    assert_eq!((bytes, fds), (12, 1));
    assert_eq!(msg.args.as_slice(), &[Argument::Fd(33), Argument::Uint(5)]);
    socket.discard(bytes, fds);
    assert_eq!(socket.input(), &[9]);
    assert_eq!(socket.input_fds(), 0);
    assert_eq!(socket.peek_message(&[]).err(), Some(MessageParseError::MissingData));
}
