//! The wire codec: one message to and from bytes and file descriptors.
//!
//! A message on the wire is an 8-byte header followed by its arguments in the
//! order of the signature. The header holds the id of the object the message
//! is addressed to, then one word whose low 16 bits are the opcode and whose
//! high 16 bits are the length of the whole message, header included. All
//! words are little-endian. File descriptors take no bytes: they travel in a
//! queue beside the bytes, in argument order.

use crate::protocol::{
    arg_views, AllowNull, ArgList, Argument, ArgumentType, ArgumentView, Message, MessageView,
};
use std::collections::VecDeque;
use vstd::bytes::{
    lemma_auto_spec_u32_to_from_le_bytes, spec_u32_from_le_bytes, spec_u32_to_le_bytes,
    u32_from_le_bytes, u32_to_le_bytes,
};
use vstd::prelude::*;
use vstd::slice::{slice_subrange, slice_to_vec};

verus! {

/// Length of the message header in bytes.
pub const HEADER_LEN: usize = 8;

/// Greatest length of a whole message: what the 16-bit length field can hold.
pub const MAX_MESSAGE_LEN: usize = 0xFFFF;

/// Greatest length of the arguments of a message.
pub const MAX_PAYLOAD_LEN: usize = 0xFFF7;

/// Why a message could not be encoded.
#[derive(Clone, Copy, Debug, PartialEq, Eq, Structural)]
pub enum MessageWriteError {
    /// The arguments are not what the signature asks for.
    InvalidArguments,
    /// The encoded message would be longer than [`MAX_MESSAGE_LEN`].
    TooLong,
}

/// Why no message could be decoded.
#[derive(Clone, Copy, Debug, PartialEq, Eq, Structural)]
pub enum MessageParseError {
    /// The buffer ends before the message does; more bytes may complete it.
    MissingData,
    /// The bytes are not a message of the given signature, or a file
    /// descriptor that it needs is not in the queue.
    Malformed,
}

/// Number of zero bytes that follow `n` bytes of data to reach a multiple of 4.
pub open spec fn padding(n: int) -> int {
    (4 - n % 4) % 4
}

/// The 32-bit word that starts at `pos`.
pub open spec fn read_word(bytes: Seq<u8>, pos: int) -> u32 {
    spec_u32_from_le_bytes(bytes.subrange(pos, pos + 4))
}

/// Wire form of a string or an array: its length, its bytes, zero padding.
pub open spec fn blob_bytes(data: Seq<u8>) -> Seq<u8> {
    spec_u32_to_le_bytes(data.len() as u32) + data + Seq::new(
        padding(data.len() as int) as nat,
        |i: int| 0u8,
    )
}

/// Wire form of one argument.
pub open spec fn arg_bytes(arg: ArgumentView) -> Seq<u8> {
    match arg {
        ArgumentView::Int(v) => spec_u32_to_le_bytes(v as u32),
        ArgumentView::Uint(v) => spec_u32_to_le_bytes(v),
        ArgumentView::Fixed(v) => spec_u32_to_le_bytes(v as u32),
        ArgumentView::Str(s) => blob_bytes(s),
        ArgumentView::Object(id) => spec_u32_to_le_bytes(id),
        ArgumentView::NewId(id) => spec_u32_to_le_bytes(id),
        ArgumentView::Array(a) => blob_bytes(a),
        ArgumentView::Fd(_) => Seq::empty(),
    }
}

/// File descriptors that one argument sends.
pub open spec fn arg_fds(arg: ArgumentView) -> Seq<i32> {
    match arg {
        ArgumentView::Fd(fd) => seq![fd],
        _ => Seq::empty(),
    }
}

/// Wire form of an argument list: the arguments one after the other.
pub open spec fn args_bytes(args: Seq<ArgumentView>) -> Seq<u8>
    decreases args.len(),
{
    if args.len() == 0 {
        Seq::empty()
    } else {
        args_bytes(args.drop_last()) + arg_bytes(args.last())
    }
}

/// File descriptors that an argument list sends, in argument order.
pub open spec fn args_fds(args: Seq<ArgumentView>) -> Seq<i32>
    decreases args.len(),
{
    if args.len() == 0 {
        Seq::empty()
    } else {
        args_fds(args.drop_last()) + arg_fds(args.last())
    }
}

/// The second header word: length in the high half, opcode in the low half.
pub open spec fn length_and_opcode(len: int, opcode: u16) -> u32 {
    (len * 0x1_0000 + opcode) as u32
}

/// Wire form of a whole message.
pub open spec fn message_bytes(m: MessageView) -> Seq<u8> {
    spec_u32_to_le_bytes(m.sender_id) + spec_u32_to_le_bytes(
        length_and_opcode(HEADER_LEN + args_bytes(m.args).len(), m.opcode),
    ) + args_bytes(m.args)
}

/// The arguments are what the signature asks for, one for one.
pub open spec fn args_fit(args: Seq<ArgumentView>, signature: Seq<ArgumentType>) -> bool {
    &&& args.len() == signature.len()
    &&& forall|i: int| 0 <= i < args.len() ==> (#[trigger] args[i]).fits(signature[i])
}

/// The message can be encoded against the signature: its arguments fit and
/// its wire form is not longer than the length field allows.
pub open spec fn encodable(m: MessageView, signature: Seq<ArgumentType>) -> bool {
    &&& args_fit(m.args, signature)
    &&& HEADER_LEN + args_bytes(m.args).len() <= MAX_MESSAGE_LEN
}

/// Reads a word at `pos`, if four bytes are there.
pub open spec fn parse_word(payload: Seq<u8>, pos: int) -> Option<u32> {
    if pos + 4 <= payload.len() {
        Some(read_word(payload, pos))
    } else {
        None
    }
}

/// Reads a string or an array at `pos`: the data and the position behind its
/// padding. The padding bytes themselves may hold anything.
pub open spec fn parse_blob(payload: Seq<u8>, pos: int) -> Option<(Seq<u8>, int)> {
    match parse_word(payload, pos) {
        None => None,
        Some(n) => {
            let end = pos + 4 + n + padding(n as int);
            if end <= payload.len() {
                Some((payload.subrange(pos + 4, pos + 4 + n), end))
            } else {
                None
            }
        },
    }
}

/// Reads one argument of kind `ty` at byte `pos`, with `fd_pos` descriptors of
/// the queue already taken: the argument and the two positions behind it, or
/// `None` where the bytes or the queue do not hold such an argument.
pub open spec fn parse_arg(
    ty: ArgumentType,
    payload: Seq<u8>,
    pos: int,
    fds: Seq<i32>,
    fd_pos: int,
) -> Option<(ArgumentView, int, int)> {
    match ty {
        ArgumentType::Int => match parse_word(payload, pos) {
            Some(w) => Some((ArgumentView::Int(w as i32), pos + 4, fd_pos)),
            None => None,
        },
        ArgumentType::Uint => match parse_word(payload, pos) {
            Some(w) => Some((ArgumentView::Uint(w), pos + 4, fd_pos)),
            None => None,
        },
        ArgumentType::Fixed => match parse_word(payload, pos) {
            Some(w) => Some((ArgumentView::Fixed(w as i32), pos + 4, fd_pos)),
            None => None,
        },
        ArgumentType::Str => match parse_blob(payload, pos) {
            Some((data, end)) => Some((ArgumentView::Str(data), end, fd_pos)),
            None => None,
        },
        ArgumentType::Object(allow) => match parse_word(payload, pos) {
            Some(w) => if w == 0 && allow == AllowNull::No {
                None
            } else {
                Some((ArgumentView::Object(w), pos + 4, fd_pos))
            },
            None => None,
        },
        ArgumentType::NewId => match parse_word(payload, pos) {
            Some(w) => Some((ArgumentView::NewId(w), pos + 4, fd_pos)),
            None => None,
        },
        ArgumentType::Array => match parse_blob(payload, pos) {
            Some((data, end)) => Some((ArgumentView::Array(data), end, fd_pos)),
            None => None,
        },
        ArgumentType::Fd => if 0 <= fd_pos < fds.len() {
            Some((ArgumentView::Fd(fds[fd_pos]), pos, fd_pos + 1))
        } else {
            None
        },
    }
}

/// Reads the first `n` arguments of the signature from the start of
/// `payload`: the arguments, the bytes used and the descriptors used.
pub open spec fn parse_args(
    signature: Seq<ArgumentType>,
    payload: Seq<u8>,
    fds: Seq<i32>,
    n: nat,
) -> Option<(Seq<ArgumentView>, int, int)>
    decreases n,
{
    if n == 0 {
        Some((Seq::empty(), 0, 0))
    } else {
        match parse_args(signature, payload, fds, (n - 1) as nat) {
            None => None,
            Some((args, pos, fd_pos)) => match parse_arg(
                signature[n - 1],
                payload,
                pos,
                fds,
                fd_pos,
            ) {
                None => None,
                Some((arg, pos2, fd_pos2)) => Some((args.push(arg), pos2, fd_pos2)),
            },
        }
    }
}

/// What decoding the start of a buffer gives.
pub enum Decoded {
    /// The buffer ends before the message does.
    MissingData,
    /// The buffer does not start with a message of the signature.
    Malformed,
    /// The buffer starts with `message`, which takes `bytes` bytes of it and
    /// the first `fds` descriptors of the queue.
    Message { message: MessageView, bytes: int, fds: int },
}

/// Decodes the message at the start of `raw` against `signature`, with `fds`
/// the queue of descriptors received.
pub open spec fn decode_spec(raw: Seq<u8>, signature: Seq<ArgumentType>, fds: Seq<i32>) -> Decoded {
    if raw.len() < HEADER_LEN {
        Decoded::MissingData
    } else {
        let word = read_word(raw, 4);
        let len = word as int / 0x1_0000;
        if len < HEADER_LEN {
            Decoded::Malformed
        } else if raw.len() < len {
            Decoded::MissingData
        } else {
            match parse_args(signature, raw.subrange(HEADER_LEN as int, len), fds, signature.len()) {
                None => Decoded::Malformed,
                Some((args, pos, fd_pos)) => if pos + HEADER_LEN != len {
                    Decoded::Malformed
                } else {
                    Decoded::Message {
                        message: MessageView {
                            sender_id: read_word(raw, 0),
                            opcode: (word as int % 0x1_0000) as u16,
                            args,
                        },
                        bytes: len,
                        fds: fd_pos,
                    }
                },
            }
        }
    }
}


/// Every word is four bytes long and is read back as it was written.
pub proof fn lemma_word_roundtrip(x: u32)
    ensures
        spec_u32_to_le_bytes(x).len() == 4,
        spec_u32_from_le_bytes(spec_u32_to_le_bytes(x)) == x,
{
    lemma_auto_spec_u32_to_from_le_bytes();
    assert(spec_u32_to_le_bytes(x).len() == 4);
}

/// Length of the wire form of one argument.
pub proof fn lemma_arg_bytes_len(arg: ArgumentView)
    ensures
        arg_bytes(arg).len() == match arg {
            ArgumentView::Str(s) => 4 + s.len() + padding(s.len() as int),
            ArgumentView::Array(a) => 4 + a.len() + padding(a.len() as int),
            ArgumentView::Fd(_) => 0,
            _ => 4,
        },
        arg_bytes(arg).len() % 4 == 0,
{
    lemma_auto_spec_u32_to_from_le_bytes();
}

/// The wire form of the first `i` arguments starts the wire form of all of
/// them, and their descriptors start the descriptors of all of them.
pub proof fn lemma_args_prefix(args: Seq<ArgumentView>, i: int)
    requires
        0 <= i <= args.len(),
    ensures
        args_bytes(args.take(i)).len() <= args_bytes(args).len(),
        args_bytes(args.take(i)) == args_bytes(args).subrange(
            0,
            args_bytes(args.take(i)).len() as int,
        ),
        args_fds(args.take(i)).len() <= args_fds(args).len(),
        args_fds(args.take(i)) == args_fds(args).subrange(0, args_fds(args.take(i)).len() as int),
    decreases args.len(),
{
    if i == args.len() {
        assert(args.take(i) =~= args);
        assert(args_bytes(args) =~= args_bytes(args).subrange(0, args_bytes(args).len() as int));
        assert(args_fds(args) =~= args_fds(args).subrange(0, args_fds(args).len() as int));
    } else {
        let front = args.drop_last();
        lemma_args_prefix(front, i);
        assert(front.take(i) =~= args.take(i));
        let n = args_bytes(args.take(i)).len() as int;
        assert(args_bytes(args).subrange(0, n) =~= args_bytes(front).subrange(0, n));
        let k = args_fds(args.take(i)).len() as int;
        assert(args_fds(args).subrange(0, k) =~= args_fds(front).subrange(0, k));
    }
}

/// Taking one argument more appends its wire form and its descriptors.
pub proof fn lemma_args_step(args: Seq<ArgumentView>, i: int)
    requires
        0 <= i < args.len(),
    ensures
        args_bytes(args.take(i + 1)) == args_bytes(args.take(i)) + arg_bytes(args[i]),
        args_fds(args.take(i + 1)) == args_fds(args.take(i)) + arg_fds(args[i]),
{
    assert(args.take(i + 1).drop_last() =~= args.take(i));
    assert(args.take(i + 1).last() == args[i]);
}

/// Once an argument cannot be read, neither can any longer run of arguments.
pub proof fn lemma_parse_args_stays_none(
    signature: Seq<ArgumentType>,
    payload: Seq<u8>,
    fds: Seq<i32>,
    i: nat,
    n: nat,
)
    requires
        i <= n,
        parse_args(signature, payload, fds, i) is None,
    ensures
        parse_args(signature, payload, fds, n) is None,
    decreases n,
{
    if i < n {
        lemma_parse_args_stays_none(signature, payload, fds, i, (n - 1) as nat);
    }
}

/// Tells whether the arguments are what the signature asks for.
pub fn check_arguments(args: &[Argument], signature: &[ArgumentType]) -> (r: bool)
    ensures
        r == args_fit(arg_views(args@), signature@),
{
    let ghost views = arg_views(args@);
    if args.len() != signature.len() {
        return false;
    }
    let mut i: usize = 0;
    while i < args.len()
        invariant
            0 <= i <= args.len(),
            args.len() == signature.len(),
            views == arg_views(args@),
            forall|j: int| 0 <= j < i ==> (#[trigger] views[j]).fits(signature@[j]),
        decreases args.len() - i,
    {
        if !args[i].fits(signature[i]) {
            assert(!views[i as int].fits(signature@[i as int]));
            return false;
        }
        i += 1;
    }
    true
}

/// Appends the zero bytes that pad `n` bytes of data to a multiple of 4.
fn push_padding(out: &mut Vec<u8>, n: usize)
    ensures
        final(out)@ == old(out)@ + Seq::new(padding(n as int) as nat, |i: int| 0u8),
{
    let pad: usize = (4 - n % 4) % 4;
    let mut k: usize = 0;
    while k < pad
        invariant
            0 <= k <= pad,
            pad == padding(n as int),
            out@ == old(out)@ + Seq::new(k as nat, |i: int| 0u8),
        decreases pad - k,
    {
        out.push(0u8);
        k += 1;
        assert(out@ =~= old(out)@ + Seq::new(k as nat, |i: int| 0u8));
    }
}

/// Appends the wire form of a word.
fn push_word(out: &mut Vec<u8>, x: u32)
    ensures
        final(out)@ == old(out)@ + spec_u32_to_le_bytes(x),
        final(out)@.len() == old(out)@.len() + 4,
{
    let mut w = u32_to_le_bytes(x);
    out.append(&mut w);
}

/// Appends the wire form of a string or an array.
fn push_blob(out: &mut Vec<u8>, data: &[u8])
    requires
        data@.len() <= MAX_PAYLOAD_LEN,
    ensures
        final(out)@ == old(out)@ + blob_bytes(data@),
{
    push_word(out, data.len() as u32);
    let mut copy = slice_to_vec(data);
    out.append(&mut copy);
    push_padding(out, data.len());
    assert(out@ =~= old(out)@ + blob_bytes(data@));
}

/// Number of bytes that the wire form of `arg` takes, or `None` where that
/// is more than a message can hold.
fn encoded_len(arg: &Argument) -> (r: Option<usize>)
    ensures
        match r {
            Some(n) => n == arg_bytes(arg@).len() && n <= MAX_PAYLOAD_LEN,
            None => arg_bytes(arg@).len() > MAX_PAYLOAD_LEN,
        },
{
    proof {
        lemma_arg_bytes_len(arg@);
    }
    match arg {
        Argument::Str(s) => blob_len(s.len()),
        Argument::Array(a) => blob_len(a.len()),
        Argument::Fd(_) => Some(0),
        _ => Some(4),
    }
}

/// Length of the wire form of `n` bytes of data, where a message can hold it.
fn blob_len(n: usize) -> (r: Option<usize>)
    ensures
        match r {
            Some(len) => len == 4 + n + padding(n as int) && len <= MAX_PAYLOAD_LEN,
            None => 4 + n + padding(n as int) > MAX_PAYLOAD_LEN,
        },
{
    if n > MAX_PAYLOAD_LEN {
        None
    } else {
        let len: usize = 4 + n + (4 - n % 4) % 4;
        if len > MAX_PAYLOAD_LEN {
            None
        } else {
            Some(len)
        }
    }
}

/// Appends the wire form of `arg` to `payload` and its descriptor, if it is
/// one, to `fds`.
fn push_argument(arg: &Argument, payload: &mut Vec<u8>, fds: &mut Vec<i32>)
    requires
        arg_bytes(arg@).len() <= MAX_PAYLOAD_LEN,
    ensures
        final(payload)@ == old(payload)@ + arg_bytes(arg@),
        final(fds)@ == old(fds)@ + arg_fds(arg@),
{
    proof {
        lemma_arg_bytes_len(arg@);
    }
    match arg {
        Argument::Int(v) => push_word(payload, *v as u32),
        Argument::Uint(v) => push_word(payload, *v),
        Argument::Fixed(v) => push_word(payload, *v as u32),
        Argument::Str(s) => push_blob(payload, s.as_slice()),
        Argument::Object(id) => push_word(payload, *id),
        Argument::NewId(id) => push_word(payload, *id),
        Argument::Array(a) => push_blob(payload, a.as_slice()),
        Argument::Fd(fd) => {
            fds.push(*fd);
            assert(payload@ =~= old(payload)@ + arg_bytes(arg@));
        },
    }
    assert(fds@ =~= old(fds)@ + arg_fds(arg@));
}

/// Encodes `msg` against `signature`: the bytes of the message and the file
/// descriptors to send with them, in argument order.
///
/// Fails with `InvalidArguments` where the arguments are not what the
/// signature asks for, and with `TooLong` where they are but the message
/// would not fit the length field.
pub fn encode_message(msg: &Message, signature: &[ArgumentType]) -> (r: Result<
    (Vec<u8>, Vec<i32>),
    MessageWriteError,
>)
    ensures
        match r {
            Ok((bytes, fds)) => {
                &&& encodable(msg@, signature@)
                &&& bytes@ == message_bytes(msg@)
                &&& fds@ == args_fds(msg@.args)
            },
            Err(MessageWriteError::InvalidArguments) => !args_fit(msg@.args, signature@),
            Err(MessageWriteError::TooLong) => {
                &&& args_fit(msg@.args, signature@)
                &&& HEADER_LEN + args_bytes(msg@.args).len() > MAX_MESSAGE_LEN
            },
        },
{
    let args = msg.args.as_slice();
    let ghost views = msg@.args;
    assert(views == arg_views(args@));
    if !check_arguments(args, signature) {
        return Err(MessageWriteError::InvalidArguments);
    }
    let mut payload: Vec<u8> = Vec::new();
    let mut fds: Vec<i32> = Vec::new();
    let mut i: usize = 0;
    while i < args.len()
        invariant
            0 <= i <= args.len(),
            views == arg_views(args@),
            views == msg@.args,
            args_fit(views, signature@),
            payload@ == args_bytes(views.take(i as int)),
            fds@ == args_fds(views.take(i as int)),
            payload@.len() <= MAX_PAYLOAD_LEN,
        decreases args.len() - i,
    {
        proof {
            lemma_args_step(views, i as int);
            lemma_args_prefix(views, i as int + 1);
            assert(views[i as int] == args@[i as int]@);
        }
        match encoded_len(&args[i]) {
            Some(n) if n <= MAX_PAYLOAD_LEN - payload.len() => {
                push_argument(&args[i], &mut payload, &mut fds);
            },
            _ => {
                return Err(MessageWriteError::TooLong);
            },
        }
        i += 1;
    }
    assert(views.take(i as int) =~= views);
    let total: usize = payload.len() + HEADER_LEN;
    let mut out: Vec<u8> = Vec::new();
    push_word(&mut out, msg.sender_id);
    push_word(&mut out, (total as u32) * 0x1_0000 + msg.opcode as u32);
    out.append(&mut payload);
    assert(out@ =~= message_bytes(msg@));
    Ok((out, fds))
}


/// The header at the start of `raw`, if all of it is there: the id of the
/// object addressed, the opcode and the length of the whole message.
pub open spec fn header_spec(raw: Seq<u8>) -> Option<(u32, u16, int)> {
    if raw.len() < HEADER_LEN {
        None
    } else {
        let word = read_word(raw, 4);
        Some((read_word(raw, 0), (word as int % 0x1_0000) as u16, word as int / 0x1_0000))
    }
}

/// Reads the header at the start of `raw` without decoding the arguments.
pub fn peek_header(raw: &[u8]) -> (r: Option<(u32, u16, usize)>)
    ensures
        match header_spec(raw@) {
            None => r is None,
            Some((sender_id, opcode, len)) => r == Some((sender_id, opcode, len as usize)) && len
                <= MAX_MESSAGE_LEN,
        },
{
    if raw.len() < HEADER_LEN {
        return None;
    }
    let sender_id: u32 = u32_from_le_bytes(slice_subrange(raw, 0, 4));
    let word: u32 = u32_from_le_bytes(slice_subrange(raw, 4, 8));
    Some((sender_id, (word % 0x1_0000) as u16, (word / 0x1_0000) as usize))
}

/// Reads the word at `pos`, if four bytes are there.
fn take_word(payload: &[u8], pos: usize) -> (r: Option<u32>)
    requires
        pos <= payload@.len(),
    ensures
        r == parse_word(payload@, pos as int),
        r is Some ==> pos + 4 <= usize::MAX,
{
    if payload.len() - pos < 4 {
        None
    } else {
        Some(u32_from_le_bytes(slice_subrange(payload, pos, pos + 4)))
    }
}

/// Reads the string or array at `pos`: its bytes and the position behind its
/// padding.
fn take_blob(payload: &[u8], pos: usize) -> (r: Option<(Vec<u8>, usize)>)
    requires
        pos <= payload@.len(),
    ensures
        match parse_blob(payload@, pos as int) {
            None => r is None,
            Some((data, end)) => r matches Some((v, e)) && v@ == data && e == end && e
                <= payload@.len(),
        },
{
    match take_word(payload, pos) {
        None => None,
        Some(word) => {
            let rest: usize = payload.len() - pos - 4;
            if word as usize > rest {
                None
            } else {
                let n: usize = word as usize;
                let pad: usize = (4 - n % 4) % 4;
                if pad > rest - n {
                    None
                } else {
                    let data = slice_to_vec(slice_subrange(payload, pos + 4, pos + 4 + n));
                    Some((data, pos + 4 + n + pad))
                }
            }
        },
    }
}

/// Reads one argument of kind `ty` at byte `pos`, taking a descriptor from
/// place `fd_pos` of the queue where the kind asks for one.
fn take_argument(
    ty: ArgumentType,
    payload: &[u8],
    pos: usize,
    fds: &VecDeque<i32>,
    fd_pos: usize,
) -> (r: Option<(Argument, usize, usize)>)
    requires
        pos <= payload@.len(),
        fd_pos <= fds@.len(),
    ensures
        match parse_arg(ty, payload@, pos as int, fds@, fd_pos as int) {
            None => r is None,
            Some((arg, p, f)) => r matches Some((a, next, taken)) && a@ == arg && next == p && taken
                == f && next <= payload@.len() && taken <= fds@.len(),
        },
{
    match ty {
        ArgumentType::Int => match take_word(payload, pos) {
            Some(w) => Some((Argument::Int(#[verifier::truncate] (w as i32)), pos + 4, fd_pos)),
            None => None,
        },
        ArgumentType::Uint => match take_word(payload, pos) {
            Some(w) => Some((Argument::Uint(w), pos + 4, fd_pos)),
            None => None,
        },
        ArgumentType::Fixed => match take_word(payload, pos) {
            Some(w) => Some((Argument::Fixed(#[verifier::truncate] (w as i32)), pos + 4, fd_pos)),
            None => None,
        },
        ArgumentType::Str => match take_blob(payload, pos) {
            Some((data, end)) => Some((Argument::Str(data), end, fd_pos)),
            None => None,
        },
        ArgumentType::Object(allow) => match take_word(payload, pos) {
            Some(w) => if w == 0 && allow == AllowNull::No {
                None
            } else {
                Some((Argument::Object(w), pos + 4, fd_pos))
            },
            None => None,
        },
        ArgumentType::NewId => match take_word(payload, pos) {
            Some(w) => Some((Argument::NewId(w), pos + 4, fd_pos)),
            None => None,
        },
        ArgumentType::Array => match take_blob(payload, pos) {
            Some((data, end)) => Some((Argument::Array(data), end, fd_pos)),
            None => None,
        },
        ArgumentType::Fd => if fd_pos < fds.len() {
            Some((Argument::Fd(fds[fd_pos]), pos, fd_pos + 1))
        } else {
            None
        },
    }
}

/// Reads all arguments of `signature` from the start of `payload`, looking up
/// descriptors from the front of `fds` without removing them: the arguments,
/// the bytes used and the descriptors used.
fn take_arguments(signature: &[ArgumentType], payload: &[u8], fds: &VecDeque<i32>) -> (r: Option<
    (ArgList, usize, usize),
>)
    ensures
        match parse_args(signature@, payload@, fds@, signature@.len()) {
            None => r is None,
            Some((found, p, f)) => r matches Some((args, pos, fd_pos)) && args@ == found && pos
                == p && fd_pos == f && pos <= payload@.len() && fd_pos <= fds@.len(),
        },
{
    let mut args = ArgList::new();
    let mut pos: usize = 0;
    let mut fd_pos: usize = 0;
    let mut i: usize = 0;
    while i < signature.len()
        invariant
            0 <= i <= signature.len(),
            pos <= payload@.len(),
            fd_pos <= fds@.len(),
            parse_args(signature@, payload@, fds@, i as nat) == Some(
                (args@, pos as int, fd_pos as int),
            ),
        decreases signature.len() - i,
    {
        match take_argument(signature[i], payload, pos, fds, fd_pos) {
            None => {
                proof {
                    lemma_parse_args_stays_none(
                        signature@,
                        payload@,
                        fds@,
                        (i + 1) as nat,
                        signature@.len(),
                    );
                }
                return None;
            },
            Some((arg, p, f)) => {
                args.push(arg);
                pos = p;
                fd_pos = f;
            },
        }
        i += 1;
    }
    Some((args, pos, fd_pos))
}

/// Decodes the message at the start of `raw` against `signature`, looking up
/// the file descriptors that it carries at the front of `fds` and leaving
/// them there: the message, the number of bytes of `raw` that it takes, and
/// the number of descriptors that belong to it.
///
/// Fails with `MissingData` where the buffer ends before the message does,
/// and with `Malformed` where the bytes are no message of this signature or
/// a descriptor is missing.
pub fn parse_message(raw: &[u8], signature: &[ArgumentType], fds: &VecDeque<i32>) -> (r: Result<
    (Message, usize, usize),
    MessageParseError,
>)
    ensures
        match decode_spec(raw@, signature@, fds@) {
            Decoded::MissingData => r matches Err(e) && e == MessageParseError::MissingData,
            Decoded::Malformed => r matches Err(e) && e == MessageParseError::Malformed,
            Decoded::Message { message, bytes, fds: taken } => {
                &&& r matches Ok((m, used, used_fds))
                &&& m@ == message
                &&& used == bytes
                &&& used_fds == taken
                &&& HEADER_LEN <= used <= raw@.len()
                &&& used_fds <= fds@.len()
            },
        },
{
    if raw.len() < HEADER_LEN {
        return Err(MessageParseError::MissingData);
    }
    let sender_id: u32 = u32_from_le_bytes(slice_subrange(raw, 0, 4));
    let word: u32 = u32_from_le_bytes(slice_subrange(raw, 4, 8));
    let len: usize = (word / 0x1_0000) as usize;
    let opcode: u16 = (word % 0x1_0000) as u16;
    if len < HEADER_LEN {
        return Err(MessageParseError::Malformed);
    }
    if raw.len() < len {
        return Err(MessageParseError::MissingData);
    }
    let payload = slice_subrange(raw, HEADER_LEN, len);
    let (args, pos, fd_pos) = match take_arguments(signature, payload, fds) {
        None => {
            return Err(MessageParseError::Malformed);
        },
        Some(found) => found,
    };
    if pos + HEADER_LEN != len {
        return Err(MessageParseError::Malformed);
    }
    Ok((Message { sender_id, opcode, args }, len, fd_pos))
}

/// Decodes the message at the start of `raw` against `signature`, taking the
/// file descriptors that it carries from the front of `fds`.
///
/// On success returns the message and the number of bytes of `raw` that it
/// takes, and removes its descriptors from the queue. On failure the queue is
/// left as it was: `MissingData` where the buffer ends before the message
/// does, `Malformed` where the bytes are no message of this signature or a
/// descriptor is missing.
pub fn decode_message(raw: &[u8], signature: &[ArgumentType], fds: &mut VecDeque<i32>) -> (r:
    Result<(Message, usize), MessageParseError>)
    ensures
        match decode_spec(raw@, signature@, old(fds)@) {
            Decoded::MissingData => {
                &&& r matches Err(e)
                &&& e == MessageParseError::MissingData
                &&& final(fds)@ == old(fds)@
            },
            Decoded::Malformed => {
                &&& r matches Err(e)
                &&& e == MessageParseError::Malformed
                &&& final(fds)@ == old(fds)@
            },
            Decoded::Message { message, bytes, fds: taken } => {
                &&& r matches Ok((m, used))
                &&& m@ == message
                &&& used == bytes
                &&& HEADER_LEN <= used <= raw@.len()
                &&& 0 <= taken <= old(fds)@.len()
                &&& final(fds)@ == old(fds)@.skip(taken)
            },
        },
{
    match parse_message(raw, signature, &*fds) {
        Err(e) => Err(e),
        Ok((message, used, used_fds)) => {
            drop_front(fds, used_fds);
            Ok((message, used))
        },
    }
}

/// Removes the first `n` descriptors of the queue.
pub fn drop_front(fds: &mut VecDeque<i32>, n: usize)
    requires
        n <= old(fds)@.len(),
    ensures
        final(fds)@ == old(fds)@.skip(n as int),
{
    let ghost queue = fds@;
    let mut k: usize = 0;
    while k < n
        invariant
            0 <= k <= n <= queue.len(),
            fds@ == queue.skip(k as int),
        decreases n - k,
    {
        let _ = fds.pop_front();
        k += 1;
        assert(fds@ =~= queue.skip(k as int));
    }
    assert(queue.skip(0) =~= queue);
}

/// Checks that the arguments can be encoded against the signature, without
/// encoding them: the number of file descriptors that the message carries,
/// or the error that encoding would give.
pub fn check_message(args: &[Argument], signature: &[ArgumentType]) -> (r: Result<
    usize,
    MessageWriteError,
>)
    ensures
        match r {
            Ok(n) => {
                &&& args_fit(arg_views(args@), signature@)
                &&& HEADER_LEN + args_bytes(arg_views(args@)).len()
                    <= MAX_MESSAGE_LEN
                &&& n == args_fds(arg_views(args@)).len()
            },
            Err(MessageWriteError::InvalidArguments) => !args_fit(
                arg_views(args@),
                signature@,
            ),
            Err(MessageWriteError::TooLong) => {
                &&& args_fit(arg_views(args@), signature@)
                &&& HEADER_LEN + args_bytes(arg_views(args@)).len()
                    > MAX_MESSAGE_LEN
            },
        },
{
    let ghost views = arg_views(args@);
    if !check_arguments(args, signature) {
        return Err(MessageWriteError::InvalidArguments);
    }
    let mut len: usize = 0;
    let mut fds: usize = 0;
    let mut i: usize = 0;
    while i < args.len()
        invariant
            0 <= i <= args.len(),
            views == arg_views(args@),
            args_fit(views, signature@),
            len == args_bytes(views.take(i as int)).len(),
            fds == args_fds(views.take(i as int)).len(),
            len <= MAX_PAYLOAD_LEN,
            fds <= i,
        decreases args.len() - i,
    {
        proof {
            lemma_args_step(views, i as int);
            lemma_args_prefix(views, i as int + 1);
            assert(views[i as int] == args@[i as int]@);
        }
        match encoded_len(&args[i]) {
            Some(n) if n <= MAX_PAYLOAD_LEN - len => {
                len = len + n;
            },
            _ => {
                return Err(MessageWriteError::TooLong);
            },
        }
        match &args[i] {
            Argument::Fd(_) => {
                fds = fds + 1;
            },
            _ => {},
        }
        i += 1;
    }
    assert(views.take(i as int) =~= views);
    Ok(fds)
}

/// An argument that fits its kind is read back from its own wire form, with
/// its descriptor, whatever follows either.
pub proof fn lemma_parse_arg_roundtrip(
    arg: ArgumentView,
    ty: ArgumentType,
    payload: Seq<u8>,
    pos: int,
    fds: Seq<i32>,
    fd_pos: int,
)
    requires
        arg.fits(ty),
        arg_bytes(arg).len() <= MAX_PAYLOAD_LEN,
        0 <= pos,
        pos + arg_bytes(arg).len() <= payload.len(),
        payload.subrange(pos, pos + arg_bytes(arg).len()) == arg_bytes(arg),
        0 <= fd_pos,
        fd_pos + arg_fds(arg).len() <= fds.len(),
        fds.subrange(fd_pos, fd_pos + arg_fds(arg).len()) == arg_fds(arg),
    ensures
        parse_arg(ty, payload, pos, fds, fd_pos) == Some(
            (arg, pos + arg_bytes(arg).len(), fd_pos + arg_fds(arg).len()),
        ),
{
    lemma_arg_bytes_len(arg);
    lemma_auto_spec_u32_to_from_le_bytes();
    let wire = arg_bytes(arg);
    let end = pos + wire.len();
    match arg {
        ArgumentView::Fd(fd) => {
            assert(fds.subrange(fd_pos, fd_pos + 1)[0] == fds[fd_pos]);
            assert(arg_fds(arg)[0] == fd);
        },
        ArgumentView::Str(data) => {
            lemma_blob_roundtrip(data, payload, pos);
        },
        ArgumentView::Array(data) => {
            lemma_blob_roundtrip(data, payload, pos);
        },
        ArgumentView::Int(v) => {
            assert(payload.subrange(pos, pos + 4) =~= wire);
            assert((v as u32) as i32 == v) by (bit_vector);
        },
        ArgumentView::Fixed(v) => {
            assert(payload.subrange(pos, pos + 4) =~= wire);
            assert((v as u32) as i32 == v) by (bit_vector);
        },
        ArgumentView::Uint(v) => {
            assert(payload.subrange(pos, pos + 4) =~= wire);
        },
        ArgumentView::Object(v) => {
            assert(payload.subrange(pos, pos + 4) =~= wire);
        },
        ArgumentView::NewId(v) => {
            assert(payload.subrange(pos, pos + 4) =~= wire);
        },
    }
}

/// A string or an array is read back from its own wire form.
pub proof fn lemma_blob_roundtrip(data: Seq<u8>, payload: Seq<u8>, pos: int)
    requires
        blob_bytes(data).len() <= MAX_PAYLOAD_LEN,
        0 <= pos,
        pos + blob_bytes(data).len() <= payload.len(),
        payload.subrange(pos, pos + blob_bytes(data).len()) == blob_bytes(data),
    ensures
        parse_blob(payload, pos) == Some((data, pos + blob_bytes(data).len())),
{
    lemma_auto_spec_u32_to_from_le_bytes();
    let wire = blob_bytes(data);
    let n = data.len() as int;
    let head = spec_u32_to_le_bytes(data.len() as u32);
    assert(head.len() == 4);
    assert(wire.len() == 4 + n + padding(n));
    assert(payload.subrange(pos, pos + 4) =~= head) by {
        assert forall|k: int| 0 <= k < 4 implies payload.subrange(pos, pos + 4)[k] == head[k] by {
            assert(payload.subrange(pos, pos + wire.len())[k] == wire[k]);
        }
    }
    assert(read_word(payload, pos) == data.len() as u32);
    assert((data.len() as u32) as int == n);
    assert(payload.subrange(pos + 4, pos + 4 + n) =~= data) by {
        assert forall|k: int| 0 <= k < n implies payload.subrange(pos + 4, pos + 4 + n)[k]
            == data[k] by {
            assert(payload.subrange(pos, pos + wire.len())[k + 4] == wire[k + 4]);
        }
    }
}

/// The first `i` arguments of a fitting list are read back from its wire
/// form and its descriptors, whatever descriptors follow in the queue.
pub proof fn lemma_parse_args_roundtrip(
    args: Seq<ArgumentView>,
    signature: Seq<ArgumentType>,
    fds: Seq<i32>,
    i: nat,
)
    requires
        args_fit(args, signature),
        args_bytes(args).len() <= MAX_PAYLOAD_LEN,
        args_fds(args).len() <= fds.len(),
        fds.subrange(0, args_fds(args).len() as int) == args_fds(args),
        i <= args.len(),
    ensures
        parse_args(signature, args_bytes(args), fds, i) == Some(
            (
                args.take(i as int),
                args_bytes(args.take(i as int)).len() as int,
                args_fds(args.take(i as int)).len() as int,
            ),
        ),
    decreases i,
{
    let payload = args_bytes(args);
    if i == 0 {
        assert(args.take(0) =~= Seq::<ArgumentView>::empty());
    } else {
        let j = (i - 1) as int;
        lemma_parse_args_roundtrip(args, signature, fds, (i - 1) as nat);
        lemma_args_step(args, j);
        lemma_args_prefix(args, i as int);
        lemma_args_prefix(args, j);
        let arg = args[j];
        let pos = args_bytes(args.take(j)).len() as int;
        let fd_pos = args_fds(args.take(j)).len() as int;
        let wire = arg_bytes(arg);
        let sent = arg_fds(arg);
        assert(arg.fits(signature[j]));
        assert(payload.subrange(pos, pos + wire.len()) =~= wire) by {
            assert forall|k: int| 0 <= k < wire.len() implies payload.subrange(
                pos,
                pos + wire.len(),
            )[k] == wire[k] by {
                assert(payload.subrange(0, pos + wire.len())[pos + k] == (args_bytes(args.take(j))
                    + wire)[pos + k]);
            }
        }
        assert(fds.subrange(fd_pos, fd_pos + sent.len()) =~= sent) by {
            assert forall|k: int| 0 <= k < sent.len() implies fds.subrange(
                fd_pos,
                fd_pos + sent.len(),
            )[k] == sent[k] by {
                assert(fds.subrange(0, args_fds(args).len() as int)[fd_pos + k] == args_fds(
                    args,
                )[fd_pos + k]);
                assert(args_fds(args).subrange(0, fd_pos + sent.len())[fd_pos + k] == (args_fds(
                    args.take(j),
                ) + sent)[fd_pos + k]);
            }
        }
        lemma_parse_arg_roundtrip(arg, signature[j], payload, pos, fds, fd_pos);
        assert(args.take(j).push(arg) =~= args.take(i as int));
    }
}

/// Decoding what was encoded gives the message back: for every message that
/// can be encoded against a signature, decoding its wire form against the
/// same signature, with its descriptors at the front of the queue, yields the
/// same message, takes exactly its bytes and exactly its descriptors. Bytes
/// and descriptors that follow are not touched.
pub proof fn lemma_decode_encode(
    m: MessageView,
    signature: Seq<ArgumentType>,
    tail: Seq<u8>,
    more_fds: Seq<i32>,
)
    requires
        encodable(m, signature),
    ensures
        decode_spec(message_bytes(m) + tail, signature, args_fds(m.args) + more_fds)
            == (Decoded::Message {
            message: m,
            bytes: message_bytes(m).len() as int,
            fds: args_fds(m.args).len() as int,
        }),
{
    lemma_auto_spec_u32_to_from_le_bytes();
    let wire = message_bytes(m);
    let raw = wire + tail;
    let fds = args_fds(m.args) + more_fds;
    let payload = args_bytes(m.args);
    let len = HEADER_LEN + payload.len();
    let second = length_and_opcode(len as int, m.opcode);
    assert(wire.len() == len);
    assert(raw.subrange(0, 4) =~= spec_u32_to_le_bytes(m.sender_id));
    assert(raw.subrange(4, 8) =~= spec_u32_to_le_bytes(second));
    assert(read_word(raw, 4) == second);
    assert(second as int == len * 0x1_0000 + m.opcode);
    assert(second as int / 0x1_0000 == len);
    assert(second as int % 0x1_0000 == m.opcode);
    assert(raw.subrange(HEADER_LEN as int, len as int) =~= payload);
    assert(fds.subrange(0, args_fds(m.args).len() as int) =~= args_fds(m.args));
    lemma_parse_args_roundtrip(m.args, signature, fds, signature.len());
    assert(m.args.take(signature.len() as int) =~= m.args);
}

/// A message cut short asks for more data: every proper prefix of the wire
/// form of an encodable message decodes to `MissingData`, never to
/// `Malformed`, whatever the descriptor queue holds.
pub proof fn lemma_prefix_is_missing_data(
    m: MessageView,
    signature: Seq<ArgumentType>,
    fds: Seq<i32>,
    n: int,
)
    requires
        encodable(m, signature),
        0 <= n < message_bytes(m).len(),
    ensures
        decode_spec(message_bytes(m).subrange(0, n), signature, fds) == Decoded::MissingData,
{
    lemma_auto_spec_u32_to_from_le_bytes();
    let wire = message_bytes(m);
    let raw = wire.subrange(0, n);
    let len = HEADER_LEN + args_bytes(m.args).len();
    let second = length_and_opcode(len as int, m.opcode);
    assert(wire.len() == len);
    if n >= HEADER_LEN {
        assert(raw.subrange(4, 8) =~= spec_u32_to_le_bytes(second));
        assert(second as int == len * 0x1_0000 + m.opcode);
        assert(second as int / 0x1_0000 == len);
    }
}

/// The header of a message cut short declares more than is there: a proper
/// prefix of the wire form of an encodable message either ends before its
/// header does, or holds a header whose length is that of the whole
/// message.
pub proof fn lemma_prefix_header(m: MessageView, signature: Seq<ArgumentType>, n: int)
    requires
        encodable(m, signature),
        0 <= n < message_bytes(m).len(),
    ensures
        match header_spec(message_bytes(m).subrange(0, n)) {
            None => n < HEADER_LEN,
            Some((sender_id, opcode, len)) => {
                &&& sender_id == m.sender_id
                &&& opcode == m.opcode
                &&& len == message_bytes(m).len()
                &&& n < len
            },
        },
{
    lemma_auto_spec_u32_to_from_le_bytes();
    let wire = message_bytes(m);
    let raw = wire.subrange(0, n);
    let len = HEADER_LEN + args_bytes(m.args).len();
    let second = length_and_opcode(len as int, m.opcode);
    assert(wire.len() == len);
    if n >= HEADER_LEN {
        assert(raw.subrange(0, 4) =~= spec_u32_to_le_bytes(m.sender_id));
        assert(raw.subrange(4, 8) =~= spec_u32_to_le_bytes(second));
        assert(second as int == len * 0x1_0000 + m.opcode);
        assert(second as int / 0x1_0000 == len);
        assert(second as int % 0x1_0000 == m.opcode);
    }
}

/// The ids that the `NewId` arguments hold, in argument order.
pub open spec fn new_ids(args: Seq<ArgumentView>) -> Seq<u32>
    decreases args.len(),
{
    if args.len() == 0 {
        Seq::empty()
    } else {
        match args.last() {
            ArgumentView::NewId(id) => new_ids(args.drop_last()).push(id),
            _ => new_ids(args.drop_last()),
        }
    }
}

/// The arguments with `ids` in their `NewId` arguments, one for one in
/// argument order, whatever these held.
pub open spec fn with_new_ids(args: Seq<ArgumentView>, ids: Seq<u32>) -> Seq<ArgumentView>
    decreases args.len(),
{
    if args.len() == 0 {
        args
    } else {
        match args.last() {
            ArgumentView::NewId(_) => with_new_ids(args.drop_last(), ids.drop_last()).push(
                ArgumentView::NewId(ids.last()),
            ),
            other => with_new_ids(args.drop_last(), ids).push(other),
        }
    }
}

/// The first arguments hold no more `NewId` arguments than all of them.
pub proof fn lemma_new_ids_prefix(args: Seq<ArgumentView>, n: int)
    requires
        0 <= n <= args.len(),
    ensures
        new_ids(args.take(n)).len() <= new_ids(args).len(),
        n < args.len() && args[n] is NewId ==> new_ids(args.take(n)).len() < new_ids(args).len(),
    decreases args.len(),
{
    if n == args.len() {
        assert(args.take(n) =~= args);
    } else {
        assert(args.drop_last().take(n) =~= args.take(n));
        lemma_new_ids_prefix(args.drop_last(), n);
        if n == args.len() - 1 {
            assert(args.drop_last().take(n) =~= args.drop_last());
        }
    }
}

/// Collects the ids that the `NewId` arguments hold, in argument order.
pub fn find_new_ids(args: &[Argument]) -> (ids: Vec<u32>)
    ensures
        ids@ == new_ids(arg_views(args@)),
{
    let ghost views = arg_views(args@);
    let mut ids: Vec<u32> = Vec::new();
    let mut i: usize = 0;
    proof {
        assert(views.take(0) =~= Seq::<ArgumentView>::empty());
    }
    while i < args.len()
        invariant
            0 <= i <= args.len(),
            views == arg_views(args@),
            ids@ == new_ids(views.take(i as int)),
        decreases args.len() - i,
    {
        proof {
            assert(views.take(i as int + 1).drop_last() =~= views.take(i as int));
            assert(views.take(i as int + 1).last() == args@[i as int]@);
        }
        match &args[i] {
            Argument::NewId(id) => {
                ids.push(*id);
            },
            _ => {},
        }
        i += 1;
    }
    assert(views.take(i as int) =~= views);
    ids
}

/// Puts `ids` into the `NewId` arguments, one for one in argument order.
pub fn set_new_ids(args: &mut Vec<Argument>, ids: &[u32])
    requires
        ids@.len() == new_ids(arg_views(old(args)@)).len(),
    ensures
        arg_views(final(args)@) == with_new_ids(arg_views(old(args)@), ids@),
        final(args)@.len() == old(args)@.len(),
{
    let ghost views = arg_views(args@);
    let mut used: usize = 0;
    let mut i: usize = 0;
    proof {
        assert(views.take(0) =~= Seq::<ArgumentView>::empty());
        assert(arg_views(args@).take(0) =~= with_new_ids(views.take(0), ids@.take(0)));
    }
    while i < args.len()
        invariant
            0 <= i <= args@.len(),
            args@.len() == views.len(),
            views == arg_views(old(args)@),
            ids@.len() == new_ids(views).len(),
            used == new_ids(views.take(i as int)).len(),
            used <= ids@.len(),
            arg_views(args@).take(i as int) == with_new_ids(
                views.take(i as int),
                ids@.take(used as int),
            ),
            forall|k: int| i <= k < args@.len() ==> (#[trigger] args@[k])@ == views[k],
        decreases args@.len() - i,
    {
        let ghost before = arg_views(args@);
        proof {
            assert(views.take(i as int + 1).drop_last() =~= views.take(i as int));
            assert(views.take(i as int + 1).last() == views[i as int]);
            lemma_new_ids_prefix(views, i as int);
            lemma_new_ids_prefix(views, i as int + 1);
            assert(args@[i as int]@ == views[i as int]);
        }
        let is_new_id = match &args[i] {
            Argument::NewId(_) => true,
            _ => false,
        };
        if is_new_id {
            args.set(i, Argument::NewId(ids[used]));
            proof {
                assert(ids@.take(used as int + 1).drop_last() =~= ids@.take(used as int));
                assert(ids@.take(used as int + 1).last() == ids@[used as int]);
                assert(arg_views(args@).take(i as int) =~= before.take(i as int));
                assert(arg_views(args@).take(i as int + 1) =~= arg_views(args@).take(
                    i as int,
                ).push(ArgumentView::NewId(ids@[used as int])));
            }
            used = used + 1;
        } else {
            proof {
                assert(arg_views(args@).take(i as int + 1) =~= arg_views(args@).take(
                    i as int,
                ).push(views[i as int]));
            }
        }
        i += 1;
    }
    proof {
        assert(views.take(i as int) =~= views);
        assert(ids@.take(used as int) =~= ids@);
        assert(arg_views(args@).take(i as int) =~= arg_views(args@));
    }
}

/// The ids that `NewId` arguments hold matter neither to whether the
/// arguments fit a signature, nor to the length of their wire form, nor to
/// the descriptors that they carry; and the arguments hold the ids that
/// were put into them.
pub proof fn lemma_with_new_ids(
    args: Seq<ArgumentView>,
    signature: Seq<ArgumentType>,
    ids: Seq<u32>,
)
    requires
        ids.len() == new_ids(args).len(),
    ensures
        with_new_ids(args, ids).len() == args.len(),
        forall|j: int|
            0 <= j < args.len() ==> (#[trigger] with_new_ids(args, ids)[j] == args[j] || (args[j] is NewId
                && with_new_ids(args, ids)[j] is NewId)),
        args_fit(with_new_ids(args, ids), signature) == args_fit(args, signature),
        args_bytes(with_new_ids(args, ids)).len() == args_bytes(args).len(),
        args_fds(with_new_ids(args, ids)) == args_fds(args),
        new_ids(with_new_ids(args, ids)) == ids,
    decreases args.len(),
{
    let changed = with_new_ids(args, ids);
    if args.len() == 0 {
        assert(new_ids(changed) =~= ids);
    } else {
        let front = args.drop_last();
        let front_ids = if args.last() is NewId {
            ids.drop_last()
        } else {
            ids
        };
        lemma_with_new_ids(front, signature, front_ids);
        lemma_arg_bytes_len(args.last());
        lemma_arg_bytes_len(changed.last());
        assert(changed.drop_last() =~= with_new_ids(front, front_ids));
        assert forall|j: int| 0 <= j < args.len() implies (#[trigger] changed[j] == args[j] || (
        args[j] is NewId && changed[j] is NewId)) by {
            if j < args.len() - 1 {
                assert(changed[j] == with_new_ids(front, front_ids)[j]);
                assert(args[j] == front[j]);
            }
        }
        assert(args_fds(changed) =~= args_fds(args));
        if args.last() is NewId {
            assert(new_ids(changed) =~= ids);
        } else {
            assert(new_ids(changed) =~= ids);
        }
    }
    if args_fit(args, signature) {
        assert forall|j: int| 0 <= j < changed.len() implies (#[trigger] changed[j]).fits(
            signature[j],
        ) by {
            assert(args[j].fits(signature[j]));
        }
    }
    if args_fit(changed, signature) {
        assert forall|j: int| 0 <= j < args.len() implies (#[trigger] args[j]).fits(
            signature[j],
        ) by {
            assert(changed[j].fits(signature[j]));
        }
    }
}

/// Arguments without a `NewId` stay as they are, whatever ids are put into
/// them.
pub proof fn lemma_no_new_ids(args: Seq<ArgumentView>, ids: Seq<u32>)
    requires
        new_ids(args).len() == 0,
    ensures
        with_new_ids(args, ids) == args,
    decreases args.len(),
{
    if args.len() > 0 {
        lemma_no_new_ids(args.drop_last(), ids);
        assert(with_new_ids(args, ids) =~= args);
    }
}

/// More data is asked for only where data is missing. Decoding reports
/// `MissingData` exactly when the buffer ends before the header does, or
/// before the length that the header declares; a buffer that holds the whole
/// of what its header declares is either a message or malformed, and never
/// waited for.
pub proof fn lemma_missing_data_means_short(
    raw: Seq<u8>,
    signature: Seq<ArgumentType>,
    fds: Seq<i32>,
)
    ensures
        decode_spec(raw, signature, fds) is MissingData <==> match header_spec(raw) {
            None => true,
            Some((_, _, len)) => HEADER_LEN <= len && raw.len() < len,
        },
{
}

} // verus!
