//! A modeled transport: bytes the peer delivers wait inbound, bytes the lane
//! writes collect outbound, and complete length-prefixed frames are taken
//! back out of the outbound side.

use vstd::prelude::*;

verus! {

/// Most bytes the transport retains inbound and outbound together.
pub const RETAINED_LIMIT: usize = 1048576;

/// The length announced by a big-endian `i32` prefix, if the buffer holds a
/// prefix and the length is not negative.
pub open spec fn frame_length(bytes: Seq<u8>) -> Option<int> {
    if bytes.len() < 4 || bytes[0] >= 128 {
        None
    } else {
        Some(bytes[0] * 16777216 + bytes[1] * 65536 + bytes[2] * 256 + bytes[3])
    }
}

/// Splits `bytes` into the complete frames at its front (each with its
/// prefix) and what remains after them.
pub open spec fn split_frames(bytes: Seq<u8>) -> (Seq<Seq<u8>>, Seq<u8>)
    decreases bytes.len(),
{
    match frame_length(bytes) {
        Some(length) => if 4 + length <= bytes.len() {
            let rest = split_frames(bytes.subrange(4 + length, bytes.len() as int));
            (seq![bytes.subrange(0, 4 + length)] + rest.0, rest.1)
        } else {
            (Seq::empty(), bytes)
        },
        None => (Seq::empty(), bytes),
    }
}

/// The frames laid end to end.
pub open spec fn concat_frames(frames: Seq<Seq<u8>>) -> Seq<u8>
    decreases frames.len(),
{
    if frames.len() == 0 {
        Seq::empty()
    } else {
        frames[0] + concat_frames(frames.drop_first())
    }
}

/// Taking frames loses, adds and reorders no byte: the frames taken, laid end
/// to end and followed by what stays outbound, are exactly the bytes written;
/// and each frame is as long as its prefix announces.
pub proof fn law_frames_partition_the_written_bytes(bytes: Seq<u8>)
    ensures
        concat_frames(split_frames(bytes).0) + split_frames(bytes).1 == bytes,
        forall|i: int| 0 <= i < split_frames(bytes).0.len() ==>
            frame_length(#[trigger] split_frames(bytes).0[i]) == Some(split_frames(bytes).0[i].len() - 4),
    decreases bytes.len(),
{
    match frame_length(bytes) {
        Some(length) => if 4 + length <= bytes.len() {
            let tail = bytes.subrange(4 + length, bytes.len() as int);
            law_frames_partition_the_written_bytes(tail);
            let frame = bytes.subrange(0, 4 + length);
            let rest = split_frames(tail);
            let frames = seq![frame] + rest.0;
            assert(frames.drop_first() =~= rest.0);
            assert(frames[0] == frame);
            assert(concat_frames(frames) == frame + concat_frames(rest.0));
            assert(frame + concat_frames(rest.0) + rest.1 =~= frame + (concat_frames(rest.0) + rest.1));
            assert(frame + tail =~= bytes);
            assert(frame_length(frame) == Some(length)) by {
                assert(frame[0] == bytes[0] && frame[1] == bytes[1] && frame[2] == bytes[2] && frame[3] == bytes[3]);
            }
            assert forall|i: int| 0 <= i < frames.len() implies
                frame_length(#[trigger] frames[i]) == Some(frames[i].len() - 4) by {
                if i > 0 {
                    assert(frames[i] == rest.0[i - 1]);
                }
            }
        } else {
            assert(concat_frames(Seq::<Seq<u8>>::empty()) + bytes =~= bytes);
        },
        None => {
            assert(concat_frames(Seq::<Seq<u8>>::empty()) + bytes =~= bytes);
        },
    }
}

/// The shared state of one modeled transport.
#[derive(Debug)]
pub struct SimulatedTransportHandle {
    connected: bool,
    inbound: Vec<u8>,
    outbound: Vec<u8>,
}

/// The bytes of `bytes` from `start` to `end`, copied.
fn copy_range(bytes: &Vec<u8>, start: usize, end: usize) -> (copied: Vec<u8>)
    requires
        start <= end <= bytes.len(),
    ensures
        copied@ == bytes@.subrange(start as int, end as int),
{
    let mut copied: Vec<u8> = Vec::new();
    let mut index = start;
    while index < end
        invariant
            start <= index <= end <= bytes.len(),
            copied@ == bytes@.subrange(start as int, index as int),
        decreases end - index,
    {
        copied.push(bytes[index]);
        index = index + 1;
        proof {
            assert(copied@ =~= bytes@.subrange(start as int, index as int));
        }
    }
    copied
}

impl SimulatedTransportHandle {
    pub closed spec fn connected(&self) -> bool {
        self.connected
    }

    pub closed spec fn inbound(&self) -> Seq<u8> {
        self.inbound@
    }

    pub closed spec fn outbound(&self) -> Seq<u8> {
        self.outbound@
    }

    /// A transport that is not connected and holds no bytes.
    pub fn new() -> (handle: Self)
        ensures
            !handle.connected(),
            handle.inbound().len() == 0,
            handle.outbound().len() == 0,
    {
        SimulatedTransportHandle { connected: false, inbound: Vec::new(), outbound: Vec::new() }
    }

    /// Lets the peer accept the connection; reports whether it was not yet
    /// connected.
    pub fn connect(&mut self) -> (changed: bool)
        ensures
            changed == !old(self).connected(),
            final(self).connected(),
            final(self).inbound() == old(self).inbound(),
            final(self).outbound() == old(self).outbound(),
    {
        let changed = !self.connected;
        self.connected = true;
        changed
    }

    /// Delivers `bytes` from the peer: accepted only while connected and
    /// while everything retained stays within the limit.
    pub fn receive(&mut self, bytes: &[u8]) -> (accepted: bool)
        ensures
            accepted == (old(self).connected()
                && old(self).inbound().len() + old(self).outbound().len() + bytes@.len() <= RETAINED_LIMIT),
            accepted ==> final(self).inbound() == old(self).inbound() + bytes@,
            !accepted ==> final(self).inbound() == old(self).inbound(),
            final(self).outbound() == old(self).outbound(),
            final(self).connected() == old(self).connected(),
    {
        let retained = self.inbound.len().saturating_add(self.outbound.len()).saturating_add(bytes.len());
        if !self.connected || retained > RETAINED_LIMIT {
            return false;
        }
        let mut index: usize = 0;
        let ghost before = self.inbound@;
        while index < bytes.len()
            invariant
                index <= bytes@.len(),
                self.inbound@ == before + bytes@.subrange(0, index as int),
                self.outbound@ == old(self).outbound(),
                self.connected == old(self).connected(),
            decreases bytes@.len() - index,
        {
            self.inbound.push(bytes[index]);
            index = index + 1;
            proof {
                assert(self.inbound@ =~= before + bytes@.subrange(0, index as int));
            }
        }
        proof {
            assert(bytes@.subrange(0, bytes@.len() as int) =~= bytes@);
        }
        true
    }

    /// Takes up to `capacity` inbound bytes for an open transport; `None`
    /// when the transport is not open or nothing waits (the read would block).
    pub fn read(&mut self, open: bool, capacity: usize) -> (read: Option<Vec<u8>>)
        ensures
            !open || old(self).inbound().len() == 0 ==> read is None && final(self).inbound() == old(self).inbound(),
            open && old(self).inbound().len() > 0 ==> {
                let copied = if capacity < old(self).inbound().len() { capacity as int } else { old(self).inbound().len() as int };
                &&& read matches Some(bytes)
                &&& bytes@ == old(self).inbound().subrange(0, copied)
                &&& final(self).inbound() == old(self).inbound().subrange(copied, old(self).inbound().len() as int)
            },
            final(self).outbound() == old(self).outbound(),
            final(self).connected() == old(self).connected(),
    {
        if !open || self.inbound.len() == 0 {
            return None;
        }
        let total = self.inbound.len();
        let copied = if capacity < total { capacity } else { total };
        let bytes = copy_range(&self.inbound, 0, copied);
        let rest = copy_range(&self.inbound, copied, total);
        self.inbound = rest;
        Some(bytes)
    }

    /// Accepts `source` written by the lane, for an open transport and only
    /// while everything retained stays within the limit.
    pub fn write(&mut self, open: bool, source: &[u8]) -> (written: bool)
        ensures
            written == (open && old(self).inbound().len() + old(self).outbound().len() + source@.len() <= RETAINED_LIMIT),
            written ==> final(self).outbound() == old(self).outbound() + source@,
            !written ==> final(self).outbound() == old(self).outbound(),
            final(self).inbound() == old(self).inbound(),
            final(self).connected() == old(self).connected(),
    {
        let retained = self.inbound.len().saturating_add(self.outbound.len()).saturating_add(source.len());
        if !open || retained > RETAINED_LIMIT {
            return false;
        }
        let mut index: usize = 0;
        let ghost before = self.outbound@;
        while index < source.len()
            invariant
                index <= source@.len(),
                self.outbound@ == before + source@.subrange(0, index as int),
                self.inbound@ == old(self).inbound(),
                self.connected == old(self).connected(),
            decreases source@.len() - index,
        {
            self.outbound.push(source[index]);
            index = index + 1;
            proof {
                assert(self.outbound@ =~= before + source@.subrange(0, index as int));
            }
        }
        proof {
            assert(source@.subrange(0, source@.len() as int) =~= source@);
        }
        true
    }

    /// Takes every complete frame written so far, in order; a partial frame,
    /// or one announcing a negative length, stays outbound with what follows.
    pub fn take_frames(&mut self) -> (frames: Vec<Vec<u8>>)
        ensures
            frames@.map_values(|frame: Vec<u8>| frame@) == split_frames(old(self).outbound()).0,
            final(self).outbound() == split_frames(old(self).outbound()).1,
            final(self).inbound() == old(self).inbound(),
            final(self).connected() == old(self).connected(),
    {
        let ghost written = self.outbound@;
        let total = self.outbound.len();
        let mut start: usize = 0;
        let mut frames: Vec<Vec<u8>> = Vec::new();
        proof {
            assert(written.subrange(0, total as int) =~= written);
            assert(frames@.map_values(|frame: Vec<u8>| frame@) + split_frames(written).0 =~= split_frames(written).0);
        }
        loop
            invariant
                total == self.outbound.len(),
                self.outbound@ == written,
                self.inbound@ == old(self).inbound(),
                self.connected == old(self).connected(),
                start <= total,
                split_frames(written) == (
                    frames@.map_values(|frame: Vec<u8>| frame@) + split_frames(written.subrange(start as int, total as int)).0,
                    split_frames(written.subrange(start as int, total as int)).1,
                ),
            ensures
                start <= total,
                split_frames(written.subrange(start as int, total as int)).0.len() == 0,
                split_frames(written.subrange(start as int, total as int)).1 == written.subrange(start as int, total as int),
            decreases total - start,
        {
            let ghost remaining = written.subrange(start as int, total as int);
            if total - start < 4 {
                break;
            }
            let b0 = self.outbound[start];
            let b1 = self.outbound[start + 1];
            let b2 = self.outbound[start + 2];
            let b3 = self.outbound[start + 3];
            proof {
                assert(remaining[0] == b0 && remaining[1] == b1 && remaining[2] == b2 && remaining[3] == b3);
            }
            if b0 >= 128 {
                break;
            }
            let length: usize = (b0 as usize) * 16777216 + (b1 as usize) * 65536 + (b2 as usize) * 256 + (b3 as usize);
            let frame_size = length + 4;
            if total - start < frame_size {
                break;
            }
            let frame = copy_range(&self.outbound, start, start + frame_size);
            let ghost before_frames = frames@.map_values(|frame: Vec<u8>| frame@);
            frames.push(frame);
            proof {
                let next = start + frame_size;
                assert(frame_length(remaining) == Some(length as int));
                assert(remaining.subrange(0, frame_size as int) =~= written.subrange(start as int, next as int));
                assert(remaining.subrange(frame_size as int, remaining.len() as int) =~= written.subrange(next as int, total as int));
                assert(frames@.map_values(|frame: Vec<u8>| frame@) =~= before_frames.push(frame@));
                let tail = split_frames(written.subrange(next as int, total as int));
                assert(split_frames(remaining) == (seq![written.subrange(start as int, next as int)] + tail.0, tail.1));
                assert(before_frames + (seq![written.subrange(start as int, next as int)] + tail.0)
                    =~= before_frames.push(frame@) + tail.0);
            }
            start = start + frame_size;
        }
        let rest = copy_range(&self.outbound, start, total);
        self.outbound = rest;
        proof {
            assert(frames@.map_values(|frame: Vec<u8>| frame@) + Seq::<Seq<u8>>::empty()
                =~= frames@.map_values(|frame: Vec<u8>| frame@));
        }
        frames
    }
}

} // verus!
