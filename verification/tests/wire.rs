use std::collections::VecDeque;
use wayland_backend::protocol::{AllowNull, ArgList, Argument, ArgumentType, Message};
use wayland_backend::rs::wire::{
    decode_message, encode_message, MessageParseError, MessageWriteError,
};

fn message(sender_id: u32, opcode: u16, args: Vec<Argument>) -> Message {
    Message { sender_id, opcode, args: ArgList::from_vec(args) }
}

fn args_of(msg: &Message) -> Vec<Argument> {
    msg.args.as_slice().to_vec()
}

#[test]
fn encode_writes_header_and_words_little_endian() {
    let msg = message(3, 5, vec![Argument::Uint(0x0102_0304), Argument::Int(-2)]);
    let (bytes, fds) =
        encode_message(&msg, &[ArgumentType::Uint, ArgumentType::Int]).unwrap();
    assert_eq!(
        bytes,
        vec![
            3, 0, 0, 0, // sender id
            5, 0, 16, 0, // opcode 5, length 16
            4, 3, 2, 1, // 0x01020304
            0xfe, 0xff, 0xff, 0xff, // -2
        ]
    );
    assert!(fds.is_empty());
}

#[test]
fn encode_pads_strings_and_arrays_with_zeros() {
    let msg = message(
        1,
        0,
        vec![Argument::Str(b"hello".to_vec()), Argument::Array(vec![9, 8, 7, 6])],
    );
    let (bytes, _) = encode_message(&msg, &[ArgumentType::Str, ArgumentType::Array]).unwrap();
    assert_eq!(
        bytes,
        vec![
            1, 0, 0, 0, 0, 0, 28, 0, // header, length 28
            5, 0, 0, 0, b'h', b'e', b'l', b'l', b'o', 0, 0, 0, // string and padding
            4, 0, 0, 0, 9, 8, 7, 6, // array, no padding
        ]
    );
}

#[test]
fn encode_empty_string_is_a_single_length_word() {
    let msg = message(1, 0, vec![Argument::Str(Vec::new())]);
    let (bytes, _) = encode_message(&msg, &[ArgumentType::Str]).unwrap();
    assert_eq!(bytes, vec![1, 0, 0, 0, 0, 0, 12, 0, 0, 0, 0, 0]);
}

#[test]
fn file_descriptors_take_no_bytes_and_keep_their_order() {
    let msg = message(
        7,
        2,
        vec![Argument::Fd(10), Argument::Uint(1), Argument::Fd(11), Argument::Fd(12)],
    );
    let sig = [ArgumentType::Fd, ArgumentType::Uint, ArgumentType::Fd, ArgumentType::Fd];
    let (bytes, fds) = encode_message(&msg, &sig).unwrap();
    assert_eq!(bytes.len(), 12);
    assert_eq!(fds, vec![10, 11, 12]);
}

fn roundtrip(args: Vec<Argument>, sig: &[ArgumentType], extra_fds: &[i32]) {
    let msg = message(0xff00_0001, 0xffff, args.clone());
    let (bytes, fds) = encode_message(&msg, sig).unwrap();
    let sent = fds.len();
    let mut queue: VecDeque<i32> = fds.into_iter().chain(extra_fds.iter().copied()).collect();
    let (back, used) = decode_message(&bytes, sig, &mut queue).unwrap();
    assert_eq!(used, bytes.len());
    assert_eq!(back.sender_id, 0xff00_0001);
    assert_eq!(back.opcode, 0xffff);
    assert_eq!(args_of(&back), args);
    assert_eq!(queue.len(), extra_fds.len());
    assert_eq!(queue.into_iter().collect::<Vec<_>>(), extra_fds.to_vec());
    let _ = sent;
}

#[test]
fn roundtrip_without_file_descriptors() {
    roundtrip(
        vec![
            Argument::Int(i32::MIN),
            Argument::Uint(u32::MAX),
            Argument::Fixed(-256),
            Argument::Str(b"wl_compositor".to_vec()),
            Argument::Object(0),
            Argument::Object(17),
            Argument::NewId(0xff00_0000),
            Argument::Array(vec![1, 2, 3]),
        ],
        &[
            ArgumentType::Int,
            ArgumentType::Uint,
            ArgumentType::Fixed,
            ArgumentType::Str,
            ArgumentType::Object(AllowNull::Yes),
            ArgumentType::Object(AllowNull::No),
            ArgumentType::NewId,
            ArgumentType::Array,
        ],
        &[],
    );
}

#[test]
fn roundtrip_with_one_file_descriptor() {
    roundtrip(
        vec![Argument::Uint(4), Argument::Fd(33)],
        &[ArgumentType::Uint, ArgumentType::Fd],
        &[44],
    );
}

#[test]
fn roundtrip_with_many_file_descriptors() {
    roundtrip(
        vec![
            Argument::Fd(3),
            Argument::Fd(4),
            Argument::Str(b"ab".to_vec()),
            Argument::Fd(5),
            Argument::Fd(6),
            Argument::Fd(7),
        ],
        &[
            ArgumentType::Fd,
            ArgumentType::Fd,
            ArgumentType::Str,
            ArgumentType::Fd,
            ArgumentType::Fd,
            ArgumentType::Fd,
        ],
        &[8, 9],
    );
}

#[test]
fn roundtrip_of_a_message_without_arguments() {
    roundtrip(Vec::new(), &[], &[1]);
}

#[test]
fn every_proper_prefix_asks_for_more_data() {
    let msg = message(
        2,
        1,
        vec![Argument::Uint(9), Argument::Str(b"prefix".to_vec()), Argument::Fd(5)],
    );
    let sig = [ArgumentType::Uint, ArgumentType::Str, ArgumentType::Fd];
    let (bytes, _) = encode_message(&msg, &sig).unwrap();
    for n in 0..bytes.len() {
        let mut queue: VecDeque<i32> = VecDeque::new();
        let got = decode_message(&bytes[..n], &sig, &mut queue);
        assert_eq!(got.err(), Some(MessageParseError::MissingData), "prefix of {} bytes", n);
    }
}

#[test]
fn message_shorter_than_its_signature_is_malformed() {
    // Opcode 5, declared length 12: a header and one word, where the
    // signature asks for a word and a string.
    let bytes = vec![1, 0, 0, 0, 5, 0, 12, 0, 42, 0, 0, 0];
    let mut queue: VecDeque<i32> = VecDeque::from(vec![3]);
    let got = decode_message(&bytes, &[ArgumentType::Uint, ArgumentType::Str], &mut queue);
    assert_eq!(got.err(), Some(MessageParseError::Malformed));
    assert_eq!(queue, VecDeque::from(vec![3]));
}

#[test]
fn declared_length_beyond_the_arguments_is_malformed() {
    let bytes = vec![1, 0, 0, 0, 0, 0, 16, 0, 42, 0, 0, 0, 0, 0, 0, 0];
    let mut queue: VecDeque<i32> = VecDeque::new();
    let got = decode_message(&bytes, &[ArgumentType::Uint], &mut queue);
    assert_eq!(got.err(), Some(MessageParseError::Malformed));
}

#[test]
fn declared_length_below_the_header_is_malformed() {
    let bytes = vec![1, 0, 0, 0, 0, 0, 4, 0];
    let mut queue: VecDeque<i32> = VecDeque::new();
    let got = decode_message(&bytes, &[], &mut queue);
    assert_eq!(got.err(), Some(MessageParseError::Malformed));
}

#[test]
fn string_longer_than_the_message_is_malformed() {
    let bytes = vec![1, 0, 0, 0, 0, 0, 16, 0, 200, 0, 0, 0, b'a', b'b', b'c', b'd'];
    let mut queue: VecDeque<i32> = VecDeque::new();
    let got = decode_message(&bytes, &[ArgumentType::Str], &mut queue);
    assert_eq!(got.err(), Some(MessageParseError::Malformed));
}

#[test]
fn null_where_an_object_is_required_is_malformed() {
    let bytes = vec![1, 0, 0, 0, 0, 0, 12, 0, 0, 0, 0, 0];
    let mut queue: VecDeque<i32> = VecDeque::new();
    let got = decode_message(&bytes, &[ArgumentType::Object(AllowNull::No)], &mut queue);
    assert_eq!(got.err(), Some(MessageParseError::Malformed));
    let mut queue: VecDeque<i32> = VecDeque::new();
    let (msg, _) =
        decode_message(&bytes, &[ArgumentType::Object(AllowNull::Yes)], &mut queue).unwrap();
    assert_eq!(args_of(&msg), vec![Argument::Object(0)]);
}

#[test]
fn missing_file_descriptor_is_malformed_and_takes_nothing() {
    let bytes = vec![1, 0, 0, 0, 0, 0, 8, 0];
    let mut queue: VecDeque<i32> = VecDeque::from(vec![5]);
    let got = decode_message(&bytes, &[ArgumentType::Fd, ArgumentType::Fd], &mut queue);
    assert_eq!(got.err(), Some(MessageParseError::Malformed));
    assert_eq!(queue, VecDeque::from(vec![5]));
}

#[test]
fn padding_bytes_may_hold_anything() {
    let bytes = vec![1, 0, 0, 0, 0, 0, 16, 0, 2, 0, 0, 0, b'o', b'k', 0xaa, 0xbb];
    let mut queue: VecDeque<i32> = VecDeque::new();
    let (msg, used) = decode_message(&bytes, &[ArgumentType::Str], &mut queue).unwrap();
    assert_eq!(used, 16);
    assert_eq!(args_of(&msg), vec![Argument::Str(b"ok".to_vec())]);
}

#[test]
fn decode_leaves_the_bytes_of_the_next_message() {
    let mut bytes = vec![1, 0, 0, 0, 3, 0, 12, 0, 7, 0, 0, 0];
    bytes.extend_from_slice(&[2, 0, 0, 0, 0, 0]);
    let mut queue: VecDeque<i32> = VecDeque::new();
    let (msg, used) = decode_message(&bytes, &[ArgumentType::Uint], &mut queue).unwrap();
    assert_eq!(used, 12);
    assert_eq!(msg.sender_id, 1);
    assert_eq!(msg.opcode, 3);
    assert_eq!(args_of(&msg), vec![Argument::Uint(7)]);
}

#[test]
fn encode_rejects_arguments_that_do_not_fit() {
    let msg = message(1, 0, vec![Argument::Uint(1)]);
    assert_eq!(
        encode_message(&msg, &[ArgumentType::Int]).err(),
        Some(MessageWriteError::InvalidArguments)
    );
    assert_eq!(
        encode_message(&msg, &[ArgumentType::Uint, ArgumentType::Uint]).err(),
        Some(MessageWriteError::InvalidArguments)
    );
    let null = message(1, 0, vec![Argument::Object(0)]);
    assert_eq!(
        encode_message(&null, &[ArgumentType::Object(AllowNull::No)]).err(),
        Some(MessageWriteError::InvalidArguments)
    );
}

#[test]
fn encode_rejects_a_message_longer_than_the_length_field() {
    let msg = message(1, 0, vec![Argument::Array(vec![0; 0xFFF4])]);
    assert_eq!(
        encode_message(&msg, &[ArgumentType::Array]).err(),
        Some(MessageWriteError::TooLong)
    );
    let largest = message(1, 0, vec![Argument::Array(vec![0; 0xFFF0])]);
    let (bytes, _) = encode_message(&largest, &[ArgumentType::Array]).unwrap();
    assert_eq!(bytes.len(), 0xFFFC);
}
