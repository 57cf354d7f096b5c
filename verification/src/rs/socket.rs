//! The buffers of a socket that carries bytes and file descriptors.
//!
//! The system calls are the caller's business. This module keeps what was
//! received and not yet decoded, and what was queued and not yet written, and
//! decides what each write offers to the socket: a message's descriptors go
//! with the first write that carries any of the message's bytes, and with no
//! other.

use crate::protocol::{ArgumentType, Message};
use crate::rs::wire::{decode_spec, drop_front, parse_message, Decoded, MessageParseError};
use std::collections::VecDeque;
use vstd::prelude::*;
use vstd::slice::slice_subrange;

verus! {

/// Greatest number of descriptors that one message may carry: what the
/// ancillary data of one write can hold.
pub const MAX_FDS_OUT: usize = 28;

/// Greatest number of received descriptors that may wait to be decoded.
pub const MAX_FDS_IN: usize = 112;

/// Why the transport refuses data.
#[derive(Clone, Copy, Debug, PartialEq, Eq, Structural)]
pub enum TransportError {
    /// More file descriptors than the transport can hold.
    FdOverflow,
    /// File descriptors without a byte to travel with.
    NoBytes,
}

/// Bytes queued for writing, with the descriptors that go with their first
/// byte.
#[derive(Debug)]
pub struct Segment {
    pub bytes: Vec<u8>,
    pub fds: Vec<i32>,
}

impl View for Segment {
    type V = (Seq<u8>, Seq<i32>);

    open spec fn view(&self) -> (Seq<u8>, Seq<i32>) {
        (self.bytes@, self.fds@)
    }
}

/// What one write offers to the socket.
pub struct WritePlan<'a> {
    pub bytes: &'a [u8],
    pub fds: &'a [i32],
}

/// The buffers of one socket.
#[derive(Debug)]
pub struct BufferedSocket {
    in_bytes: Vec<u8>,
    in_fds: VecDeque<i32>,
    out: VecDeque<Segment>,
    out_offset: usize,
}

/// All bytes of the segments, in order.
pub open spec fn segments_bytes(segments: Seq<Segment>) -> Seq<u8>
    decreases segments.len(),
{
    if segments.len() == 0 {
        Seq::empty()
    } else {
        segments_bytes(segments.drop_last()) + segments.last().bytes@
    }
}

/// All descriptors of the segments, in order.
pub open spec fn segments_fds(segments: Seq<Segment>) -> Seq<i32>
    decreases segments.len(),
{
    if segments.len() == 0 {
        Seq::empty()
    } else {
        segments_fds(segments.drop_last()) + segments.last().fds@
    }
}

impl BufferedSocket {
    /// The buffers are well formed. Every value that this module hands out
    /// is, and every operation keeps it so.
    pub closed spec fn wf(&self) -> bool {
        &&& self.in_fds@.len() <= MAX_FDS_IN
        &&& forall|i: int|
            0 <= i < self.out@.len() ==> (#[trigger] self.out@[i]).bytes@.len() > 0
                && self.out@[i].fds@.len() <= MAX_FDS_OUT
        &&& self.out@.len() == 0 ==> self.out_offset == 0
        &&& self.out@.len() > 0 ==> self.out_offset < self.out@[0].bytes@.len()
    }

    /// Bytes received and not yet consumed.
    pub closed spec fn received_bytes(&self) -> Seq<u8> {
        self.in_bytes@
    }

    /// Descriptors received and not yet consumed.
    pub closed spec fn received_fds(&self) -> Seq<i32> {
        self.in_fds@
    }

    /// The queued segments, first to be written first.
    pub closed spec fn segments(&self) -> Seq<Segment> {
        self.out@
    }

    /// Number of bytes of the first segment that have been written.
    pub closed spec fn written_of_first(&self) -> nat {
        self.out_offset as nat
    }

    /// Bytes queued and not yet written, in the order in which they will be
    /// written.
    pub open spec fn pending_bytes(&self) -> Seq<u8> {
        segments_bytes(self.segments()).skip(self.written_of_first() as int)
    }

    /// Descriptors queued and not yet handed to a write, in order.
    pub open spec fn pending_fds(&self) -> Seq<i32> {
        if self.written_of_first() > 0 {
            segments_fds(self.segments().skip(1))
        } else {
            segments_fds(self.segments())
        }
    }

    /// Bytes that the next write offers: what is left of the first segment.
    pub open spec fn plan_bytes(&self) -> Seq<u8> {
        if self.segments().len() == 0 {
            Seq::empty()
        } else {
            self.segments()[0].bytes@.skip(self.written_of_first() as int)
        }
    }

    /// Descriptors that the next write offers: those of the first segment,
    /// unless an earlier write carried bytes of it, and them with it.
    pub open spec fn plan_fds(&self) -> Seq<i32> {
        if self.segments().len() == 0 || self.written_of_first() > 0 {
            Seq::empty()
        } else {
            self.segments()[0].fds@
        }
    }

    /// Both hold the same queued output.
    pub open spec fn same_output(&self, other: &BufferedSocket) -> bool {
        self.segments() == other.segments() && self.written_of_first() == other.written_of_first()
    }

    /// Both hold the same received input.
    pub open spec fn same_input(&self, other: &BufferedSocket) -> bool {
        self.received_bytes() == other.received_bytes() && self.received_fds()
            == other.received_fds()
    }

    /// Nothing is buffered: nothing received waits to be decoded, and
    /// nothing queued waits to be written.
    pub open spec fn idle(&self) -> bool {
        &&& self.received_bytes() == Seq::<u8>::empty()
        &&& self.received_fds() == Seq::<i32>::empty()
        &&& self.segments() == Seq::<Segment>::empty()
        &&& self.written_of_first() == 0
    }

    /// Empty buffers.
    pub fn new() -> (socket: BufferedSocket)
        ensures
            socket.wf(),
            socket.idle(),
    {
        BufferedSocket {
            in_bytes: Vec::new(),
            in_fds: VecDeque::new(),
            out: VecDeque::new(),
            out_offset: 0,
        }
    }

    /// Takes in what one read brought: the bytes and the descriptors that
    /// came with them, behind what is already buffered. Refuses both where
    /// the descriptors would not fit, and then changes nothing.
    pub fn receive(&mut self, bytes: &[u8], fds: &[i32]) -> (r: Result<(), TransportError>)
        requires
            old(self).wf(),
        ensures
            final(self).wf(),
            final(self).segments() == old(self).segments(),
            final(self).written_of_first() == old(self).written_of_first(),
            match r {
                Ok(()) => {
                    &&& old(self).received_fds().len() + fds@.len() <= MAX_FDS_IN
                    &&& final(self).received_bytes() == old(self).received_bytes() + bytes@
                    &&& final(self).received_fds() == old(self).received_fds() + fds@
                },
                Err(e) => {
                    &&& e == TransportError::FdOverflow
                    &&& old(self).received_fds().len() + fds@.len() > MAX_FDS_IN
                    &&& final(self).received_bytes() == old(self).received_bytes()
                    &&& final(self).received_fds() == old(self).received_fds()
                },
            },
    {
        if fds.len() > MAX_FDS_IN - self.in_fds.len() {
            return Err(TransportError::FdOverflow);
        }
        let mut i: usize = 0;
        while i < bytes.len()
            invariant
                0 <= i <= bytes@.len(),
                self.in_bytes@ == old(self).in_bytes@ + bytes@.take(i as int),
                self.in_fds == old(self).in_fds,
                self.out == old(self).out,
                self.out_offset == old(self).out_offset,
            decreases bytes@.len() - i,
        {
            self.in_bytes.push(bytes[i]);
            i += 1;
            assert(self.in_bytes@ =~= old(self).in_bytes@ + bytes@.take(i as int));
        }
        assert(bytes@.take(bytes@.len() as int) =~= bytes@);
        let mut k: usize = 0;
        while k < fds.len()
            invariant
                0 <= k <= fds@.len(),
                self.in_bytes@ == old(self).in_bytes@ + bytes@,
                self.in_fds@ == old(self).in_fds@ + fds@.take(k as int),
                self.out == old(self).out,
                self.out_offset == old(self).out_offset,
            decreases fds@.len() - k,
        {
            self.in_fds.push_back(fds[k]);
            k += 1;
            assert(self.in_fds@ =~= old(self).in_fds@ + fds@.take(k as int));
        }
        assert(fds@.take(fds@.len() as int) =~= fds@);
        Ok(())
    }

    /// The bytes received and not yet consumed.
    pub fn input(&self) -> (bytes: &[u8])
        ensures
            bytes@ == self.received_bytes(),
    {
        self.in_bytes.as_slice()
    }

    /// Number of descriptors received and not yet consumed.
    pub fn input_fds(&self) -> (n: usize)
        ensures
            n == self.received_fds().len(),
    {
        self.in_fds.len()
    }

    /// Decodes the message at the front of what was received against
    /// `signature`, and leaves it there: the message, and the numbers of
    /// bytes and of descriptors that it takes.
    pub fn peek_message(&self, signature: &[ArgumentType]) -> (r: Result<
        (Message, usize, usize),
        MessageParseError,
    >)
        ensures
            match decode_spec(self.received_bytes(), signature@, self.received_fds()) {
                Decoded::MissingData => r matches Err(e) && e == MessageParseError::MissingData,
                Decoded::Malformed => r matches Err(e) && e == MessageParseError::Malformed,
                Decoded::Message { message, bytes, fds } => {
                    &&& r matches Ok((m, used, used_fds))
                    &&& m@ == message
                    &&& used == bytes
                    &&& used_fds == fds
                    &&& used <= self.received_bytes().len()
                    &&& used_fds <= self.received_fds().len()
                },
            },
    {
        parse_message(self.in_bytes.as_slice(), signature, &self.in_fds)
    }

    /// Drops the first `bytes` received bytes and the first `fds` received
    /// descriptors, which have been decoded.
    pub fn discard(&mut self, bytes: usize, fds: usize)
        requires
            old(self).wf(),
            bytes <= old(self).received_bytes().len(),
            fds <= old(self).received_fds().len(),
        ensures
            final(self).wf(),
            final(self).received_bytes() == old(self).received_bytes().skip(bytes as int),
            final(self).received_fds() == old(self).received_fds().skip(fds as int),
            final(self).same_output(old(self)),
    {
        let rest = self.in_bytes.split_off(bytes);
        self.in_bytes = rest;
        assert(self.in_bytes@ =~= old(self).in_bytes@.skip(bytes as int));
        drop_front(&mut self.in_fds, fds);
    }

    /// Queues the bytes of one message with the descriptors that it carries.
    ///
    /// The descriptors will be offered with the first write that carries a
    /// byte of the message. A message without descriptors joins the segment
    /// queued last, so that one write can carry both. Nothing is queued, and
    /// the call fails, where there are more descriptors than one write can
    /// carry, or descriptors and no bytes.
    pub fn queue(&mut self, bytes: Vec<u8>, fds: Vec<i32>) -> (r: Result<(), TransportError>)
        requires
            old(self).wf(),
        ensures
            final(self).wf(),
            final(self).received_bytes() == old(self).received_bytes(),
            final(self).received_fds() == old(self).received_fds(),
            final(self).written_of_first() == old(self).written_of_first(),
            match r {
                Ok(()) => {
                    &&& fds@.len() <= MAX_FDS_OUT
                    &&& bytes@.len() > 0 || fds@.len() == 0
                    &&& segments_bytes(final(self).segments()) == segments_bytes(
                        old(self).segments(),
                    ) + bytes@
                    &&& segments_fds(final(self).segments()) == segments_fds(old(self).segments())
                        + fds@
                    &&& final(self).pending_bytes() == old(self).pending_bytes() + bytes@
                    &&& final(self).pending_fds() == old(self).pending_fds() + fds@
                    &&& bytes@.len() == 0 ==> final(self).segments() == old(self).segments()
                    &&& bytes@.len() > 0 && (fds@.len() > 0 || old(self).segments().len() == 0)
                        ==> final(self).segments() == old(self).segments().push(
                        Segment { bytes, fds },
                    )
                    &&& bytes@.len() > 0 && fds@.len() == 0 && old(self).segments().len() > 0 ==> {
                        &&& final(self).segments().len() == old(self).segments().len()
                        &&& final(self).segments().drop_last() == old(self).segments().drop_last()
                        &&& final(self).segments().last()@ == (
                            old(self).segments().last().bytes@ + bytes@,
                            old(self).segments().last().fds@,
                        )
                    }
                },
                Err(e) => {
                    &&& final(self).segments() == old(self).segments()
                    &&& e == if fds@.len() > MAX_FDS_OUT {
                        TransportError::FdOverflow
                    } else {
                        TransportError::NoBytes
                    }
                    &&& fds@.len() > MAX_FDS_OUT || (bytes@.len() == 0 && fds@.len() > 0)
                },
            },
    {
        if fds.len() > MAX_FDS_OUT {
            return Err(TransportError::FdOverflow);
        }
        if bytes.len() == 0 {
            if fds.len() > 0 {
                return Err(TransportError::NoBytes);
            }
            assert(segments_bytes(self.segments()) + bytes@ =~= segments_bytes(self.segments()));
            assert(segments_fds(self.segments()) + fds@ =~= segments_fds(self.segments()));
            assert(self.pending_bytes() + bytes@ =~= self.pending_bytes());
            assert(self.pending_fds() + fds@ =~= self.pending_fds());
            return Ok(());
        }
        let ghost before = self.out@;
        let ghost offset = self.out_offset as int;
        proof {
            lemma_segments_bytes_first(before);
        }
        if fds.len() == 0 && self.out.len() > 0 {
            let mut last = self.out.pop_back().unwrap();
            let ghost front = self.out@;
            let ghost old_last = last;
            let ghost added = bytes@;
            let mut tail = bytes;
            last.bytes.append(&mut tail);
            self.out.push_back(last);
            proof {
                assert(front =~= before.drop_last());
                assert(self.out@.drop_last() =~= front);
                assert(self.out@.last() == last);
                assert(before.last() == old_last);
                assert(segments_bytes(self.out@) =~= segments_bytes(before) + added);
                assert(last.fds@ == old_last.fds@);
                assert(segments_fds(self.out@) =~= segments_fds(before) + fds@);
                lemma_segments_bytes_first(self.out@);
                lemma_segments_skip_first(before);
                lemma_segments_skip_first(self.out@);
                if before.len() > 1 {
                    assert(self.out@[0] == before[0]);
                    assert(self.out@.skip(1).drop_last() =~= before.skip(1).drop_last());
                    assert(self.out@.skip(1).last() == last);
                    assert(before.skip(1).last() == old_last);
                } else {
                    assert(self.out@.skip(1) =~= Seq::<Segment>::empty());
                    assert(before.skip(1) =~= Seq::<Segment>::empty());
                }
                assert(self.pending_bytes() =~= old(self).pending_bytes() + added);
                assert(self.pending_fds() =~= old(self).pending_fds() + fds@);
            }
        } else {
            let segment = Segment { bytes, fds };
            self.out.push_back(segment);
            proof {
                assert(self.out@.drop_last() =~= before);
                lemma_segments_bytes_first(self.out@);
                lemma_segments_skip_first(self.out@);
                if before.len() > 0 {
                    lemma_segments_skip_first(before);
                    assert(self.out@.skip(1).drop_last() =~= before.skip(1));
                } else {
                    assert(self.out@.skip(1) =~= Seq::<Segment>::empty());
                }
                assert(self.pending_bytes() =~= old(self).pending_bytes() + bytes@);
                assert(self.pending_fds() =~= old(self).pending_fds() + fds@);
            }
        }
        Ok(())
    }

    /// What the next write offers to the socket: the bytes left of the first
    /// segment, and its descriptors if none of its bytes has been written.
    /// `None` where nothing is queued.
    pub fn next_write(&self) -> (plan: Option<WritePlan<'_>>)
        requires
            self.wf(),
        ensures
            match plan {
                Some(p) => {
                    &&& self.segments().len() > 0
                    &&& p.bytes@ == self.plan_bytes()
                    &&& p.fds@ == self.plan_fds()
                    &&& p.bytes@.len() > 0
                    &&& p.fds@.len() <= MAX_FDS_OUT
                },
                None => self.segments().len() == 0,
            },
    {
        if self.out.len() == 0 {
            return None;
        }
        let first = &self.out[0];
        let bytes = slice_subrange(first.bytes.as_slice(), self.out_offset, first.bytes.len());
        assert(bytes@ =~= self.plan_bytes());
        let fds = if self.out_offset > 0 {
            slice_subrange(first.fds.as_slice(), 0, 0)
        } else {
            first.fds.as_slice()
        };
        assert(fds@ =~= self.plan_fds());
        Some(WritePlan { bytes, fds })
    }

    /// Records that a write carried the first `n` bytes of its plan, and with
    /// them all descriptors of the plan. A write that carried nothing
    /// (`n == 0`) leaves everything queued, descriptors included.
    pub fn wrote(&mut self, n: usize)
        requires
            old(self).wf(),
            n <= old(self).plan_bytes().len(),
        ensures
            final(self).wf(),
            final(self).received_bytes() == old(self).received_bytes(),
            final(self).received_fds() == old(self).received_fds(),
            final(self).pending_bytes() == old(self).pending_bytes().skip(n as int),
            n == 0 ==> final(self).pending_fds() == old(self).pending_fds(),
            n > 0 ==> final(self).pending_fds() == old(self).pending_fds().skip(
                old(self).plan_fds().len() as int,
            ),
            n == 0 || n < old(self).plan_bytes().len() ==> {
                &&& final(self).segments() == old(self).segments()
                &&& final(self).written_of_first() == old(self).written_of_first() + n
            },
            n > 0 && n == old(self).plan_bytes().len() ==> {
                &&& final(self).segments() == old(self).segments().skip(1)
                &&& final(self).written_of_first() == 0
            },
    {
        if n == 0 {
            assert(self.pending_bytes().skip(0) =~= self.pending_bytes());
            return ;
        }
        let ghost before = self.out@;
        let ghost offset = self.out_offset as int;
        proof {
            lemma_segments_bytes_first(before);
            lemma_segments_skip_first(before);
        }
        let left: usize = self.out[0].bytes.len() - self.out_offset;
        if n < left {
            self.out_offset = self.out_offset + n;
            proof {
                assert(self.pending_bytes() =~= old(self).pending_bytes().skip(n as int));
                if offset == 0 {
                    assert(old(self).pending_fds().skip(before[0].fds@.len() as int)
                        =~= segments_fds(before.skip(1)));
                } else {
                    assert(old(self).pending_fds().skip(0) =~= old(self).pending_fds());
                }
            }
        } else {
            let _ = self.out.pop_front();
            self.out_offset = 0;
            proof {
                assert(self.out@ =~= before.skip(1));
                assert(self.pending_bytes() =~= old(self).pending_bytes().skip(n as int));
                if offset == 0 {
                    assert(old(self).pending_fds().skip(before[0].fds@.len() as int)
                        =~= segments_fds(before.skip(1)));
                } else {
                    assert(old(self).pending_fds().skip(0) =~= old(self).pending_fds());
                }
            }
        }
    }

    /// Tells whether anything is queued for writing.
    pub fn has_pending_output(&self) -> (r: bool)
        ensures
            r == (self.segments().len() > 0),
    {
        self.out.len() > 0
    }
}

/// The bytes of a run of segments are those of the first followed by those
/// of the others; likewise the descriptors.
pub proof fn lemma_segments_skip_first(segments: Seq<Segment>)
    requires
        segments.len() > 0,
    ensures
        segments_bytes(segments) == segments[0].bytes@ + segments_bytes(segments.skip(1)),
        segments_fds(segments) == segments[0].fds@ + segments_fds(segments.skip(1)),
    decreases segments.len(),
{
    if segments.len() == 1 {
        reveal_with_fuel(segments_bytes, 2);
        reveal_with_fuel(segments_fds, 2);
        assert(segments.drop_last() =~= Seq::<Segment>::empty());
        assert(segments.skip(1) =~= Seq::<Segment>::empty());
        assert(segments_bytes(segments) =~= segments[0].bytes@ + Seq::<u8>::empty());
        assert(segments_fds(segments) =~= segments[0].fds@ + Seq::<i32>::empty());
    } else {
        lemma_segments_skip_first(segments.drop_last());
        assert(segments.drop_last().skip(1) =~= segments.skip(1).drop_last());
        assert(segments.skip(1).last() == segments.last());
        assert(segments_bytes(segments) =~= segments[0].bytes@ + segments_bytes(segments.skip(1)));
        assert(segments_fds(segments) =~= segments[0].fds@ + segments_fds(segments.skip(1)));
    }
}

/// The bytes of a run of segments start with the bytes of the first.
pub proof fn lemma_segments_bytes_first(segments: Seq<Segment>)
    ensures
        segments.len() > 0 ==> segments_bytes(segments).len() >= segments[0].bytes@.len(),
        segments.len() == 0 ==> segments_bytes(segments).len() == 0,
{
    if segments.len() > 0 {
        lemma_segments_skip_first(segments);
    }
}

/// What a write offers is the front of what is pending. The bytes of the
/// plan start the pending bytes and its descriptors start the pending
/// descriptors, so that writing plan after plan sends every byte and every
/// descriptor once and in the order in which they were queued.
pub proof fn lemma_plan_is_front_of_pending(socket: &BufferedSocket)
    requires
        socket.wf(),
    ensures
        socket.plan_bytes().len() <= socket.pending_bytes().len(),
        socket.plan_bytes() == socket.pending_bytes().subrange(
            0,
            socket.plan_bytes().len() as int,
        ),
        socket.plan_fds().len() <= socket.pending_fds().len(),
        socket.plan_fds() == socket.pending_fds().subrange(0, socket.plan_fds().len() as int),
{
    let segments = socket.segments();
    if segments.len() > 0 {
        lemma_segments_skip_first(segments);
        assert(socket.plan_bytes() =~= socket.pending_bytes().subrange(
            0,
            socket.plan_bytes().len() as int,
        ));
        assert(socket.plan_fds() =~= socket.pending_fds().subrange(
            0,
            socket.plan_fds().len() as int,
        ));
    } else {
        assert(socket.plan_bytes() =~= socket.pending_bytes().subrange(0, 0));
        assert(socket.plan_fds() =~= socket.pending_fds().subrange(0, 0));
    }
}

} // verus!
