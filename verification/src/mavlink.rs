//! Telemetry framing: numbering the frames of a beat, and cutting a byte stream back into frames.
//!
//! A frame starts with [`MAVLINK_MAGIC`]; its second byte counts the payload, which follows a
//! header of ten bytes and precedes a checksum of two. The framing below looks at nothing else:
//! whether a checksum is right is for the decoder to say.

use vstd::prelude::*;

verus! {

/// The byte that starts a frame.
pub const MAVLINK_MAGIC: u8 = 0xFD;

/// The bytes of a frame that are not payload.
pub const FRAME_OVERHEAD: usize = 12;

/// `f` is one whole frame, as far as the framing can tell.
pub open spec fn is_frame(f: Seq<u8>) -> bool {
    &&& f.len() >= FRAME_OVERHEAD
    &&& f[0] == MAVLINK_MAGIC
    &&& f.len() == FRAME_OVERHEAD + f[1]
}

/// What a byte stream holds: its frames in order, with bytes that belong to no frame left out, and
/// the beginning of a frame that the stream breaks off in.
pub open spec fn deframe(s: Seq<u8>) -> (Seq<Seq<u8>>, Seq<u8>)
    decreases s.len(),
{
    if s.len() == 0 {
        (Seq::empty(), Seq::empty())
    } else if s[0] != MAVLINK_MAGIC {
        deframe(s.skip(1))
    } else if s.len() < 2 || s.len() < FRAME_OVERHEAD + s[1] {
        (Seq::empty(), s)
    } else {
        let n = FRAME_OVERHEAD + s[1];
        let (frames, rest) = deframe(s.skip(n));
        (seq![s.take(n)] + frames, rest)
    }
}

/// The byte sequences held by a sequence of vectors.
pub open spec fn contents(v: Seq<Vec<u8>>) -> Seq<Seq<u8>> {
    Seq::new(v.len(), |i: int| v[i]@)
}

/// The messages that a beat of telemetry is made of.
#[derive(Clone, Copy, Debug, PartialEq, Eq, Structural)]
pub enum Message {
    Heartbeat,
    Attitude,
    LocalPosition,
    SysStatus,
    VfrHud,
    GlobalPosition,
}

/// The order of the messages in a beat.
pub open spec fn beat_order() -> Seq<Message> {
    seq![
        Message::Heartbeat,
        Message::Attitude,
        Message::LocalPosition,
        Message::SysStatus,
        Message::VfrHud,
        Message::GlobalPosition,
    ]
}

/// Numbers the frames of a telemetry downlink. The number wraps after 255.
#[derive(Clone, Copy, Debug, PartialEq, Eq, Structural)]
pub struct MavlinkBridge {
    pub sys_id: u8,
    pub comp_id: u8,
    pub seq: u8,
}

impl MavlinkBridge {
    pub fn new(sys_id: u8, comp_id: u8) -> (r: Self)
        ensures
            r == (MavlinkBridge { sys_id, comp_id, seq: 0 }),
    {
        MavlinkBridge { sys_id, comp_id, seq: 0 }
    }

    /// The number that the next frame carries.
    pub fn seq(&self) -> (r: u8)
        ensures
            r == self.seq,
    {
        self.seq
    }

    /// The messages of the next beat, each with the number that its frame is to carry.
    pub fn telemetry_plan(&self) -> (r: [(Message, u8); 6])
        ensures
            forall|k: int|
                #![trigger r[k]]
                0 <= k < 6 ==> r[k].0 == beat_order()[k] && r[k].1 == (self.seq + k) % 256,
    {
        let s: u8 = self.seq;
        [
            (Message::Heartbeat, s),
            (Message::Attitude, s.wrapping_add(1)),
            (Message::LocalPosition, s.wrapping_add(2)),
            (Message::SysStatus, s.wrapping_add(3)),
            (Message::VfrHud, s.wrapping_add(4)),
            (Message::GlobalPosition, s.wrapping_add(5)),
        ]
    }

    /// Appends one encoded frame to the stream and counts it.
    pub fn push_frame(&mut self, frame: &Vec<u8>, out: &mut Vec<u8>)
        ensures
            final(out)@ == old(out)@ + frame@,
            *final(self) == (MavlinkBridge {
                seq: ((old(self).seq + 1) % 256) as u8,
                ..*old(self)
            }),
    {
        let mut i: usize = 0;
        while i < frame.len()
            invariant
                i <= frame.len(),
                out@ == old(out)@ + frame@.take(i as int),
            decreases frame.len() - i,
        {
            out.push(frame[i]);
            proof {
                assert(frame@.take(i + 1) =~= frame@.take(i as int).push(frame@[i as int]));
            }
            i += 1;
        }
        assert(frame@.take(i as int) =~= frame@);
        self.seq = self.seq.wrapping_add(1);
    }

    /// The stream of one beat, from the six frames that were encoded after
    /// [`MavlinkBridge::telemetry_plan`].
    pub fn emit_telemetry(&mut self, frames: &[Vec<u8>; 6]) -> (out: Vec<u8>)
        ensures
            out@ == contents(frames@).flatten(),
            *final(self) == (MavlinkBridge {
                seq: ((old(self).seq + 6) % 256) as u8,
                ..*old(self)
            }),
    {
        let mut out: Vec<u8> = Vec::new();
        let mut i: usize = 0;
        proof {
            reveal_with_fuel(Seq::flatten, 1);
            assert(contents(frames@).take(0) =~= Seq::<Seq<u8>>::empty());
        }
        while i < 6
            invariant
                i <= 6,
                out@ == contents(frames@).take(i as int).flatten(),
                self.seq == (old(self).seq + i) % 256,
                self.sys_id == old(self).sys_id,
                self.comp_id == old(self).comp_id,
            decreases 6 - i,
        {
            self.push_frame(&frames[i], &mut out);
            proof {
                let all = contents(frames@);
                assert(all.take(i + 1) =~= all.take(i as int).push(frames@[i as int]@));
                all.take(i as int).lemma_flatten_push(frames@[i as int]@);
            }
            i += 1;
        }
        assert(contents(frames@).take(6) =~= contents(frames@));
        out
    }
}

/// Cuts a byte stream into frames, fed to it in pieces of any size.
pub struct MavlinkStreamParser {
    buf: Vec<u8>,
}

impl MavlinkStreamParser {
    /// The bytes of the frame that is being collected.
    pub closed spec fn pending(&self) -> Seq<u8> {
        self.buf@
    }

    /// What is being collected is the beginning of one frame, and not all of it.
    pub open spec fn wf(&self) -> bool {
        deframe(self.pending()) == (Seq::<Seq<u8>>::empty(), self.pending())
    }

    pub fn new() -> (r: Self)
        ensures
            r.wf(),
            r.pending() == Seq::<u8>::empty(),
    {
        MavlinkStreamParser { buf: Vec::new() }
    }

    /// Takes in a piece of the stream and returns the frames that it completes, in order.
    pub fn feed(&mut self, bytes: &[u8]) -> (frames: Vec<Vec<u8>>)
        requires
            old(self).wf(),
        ensures
            final(self).wf(),
            contents(frames@) == deframe(old(self).pending() + bytes@).0,
            final(self).pending() == deframe(old(self).pending() + bytes@).1,
    {
        let ghost start = self.buf@;
        let mut frames: Vec<Vec<u8>> = Vec::new();
        let mut i: usize = 0;
        proof {
            assert(start + bytes@.take(0) =~= start);
            assert(contents(frames@) =~= Seq::<Seq<u8>>::empty());
        }
        while i < bytes.len()
            invariant
                i <= bytes.len(),
                self.wf(),
                contents(frames@) == deframe(start + bytes@.take(i as int)).0,
                self.buf@ == deframe(start + bytes@.take(i as int)).1,
            decreases bytes.len() - i,
        {
            let b: u8 = bytes[i];
            let ghost seen = start + bytes@.take(i as int);
            let ghost held = self.buf@;
            let ghost before = contents(frames@);
            proof {
                assert(start + bytes@.take(i + 1) =~= seen + seq![b]);
                lemma_deframe_append(seen, seq![b]);
                assert(held + seq![b] =~= held.push(b));
                lemma_deframe_push(held, b);
            }
            if self.buf.len() == 0 {
                if b == MAVLINK_MAGIC {
                    self.buf.push(b);
                }
                assert(contents(frames@) =~= before + Seq::<Seq<u8>>::empty());
            } else {
                self.buf.push(b);
                if self.buf.len() >= FRAME_OVERHEAD && self.buf.len() == FRAME_OVERHEAD
                    + self.buf[1] as usize {
                    let mut frame: Vec<u8> = Vec::new();
                    frame.append(&mut self.buf);
                    frames.push(frame);
                    proof {
                        assert(contents(frames@) =~= before + seq![held.push(b)]);
                    }
                } else {
                    assert(contents(frames@) =~= before + Seq::<Seq<u8>>::empty());
                }
            }
            i += 1;
        }
        assert(start + bytes@.take(i as int) =~= start + bytes@);
        frames
    }
}

/// A stream that goes on yields what it held before, then what the unfinished rest and the new
/// bytes hold together.
pub proof fn lemma_deframe_append(a: Seq<u8>, b: Seq<u8>)
    ensures
        deframe(a + b).0 == deframe(a).0 + deframe(deframe(a).1 + b).0,
        deframe(a + b).1 == deframe(deframe(a).1 + b).1,
    decreases a.len(),
{
    if a.len() == 0 {
        assert(deframe(a).1 + b =~= b);
        assert(a + b =~= b);
        assert(deframe(a).0 + deframe(b).0 =~= deframe(b).0);
    } else if a[0] != MAVLINK_MAGIC {
        assert((a + b).skip(1) =~= a.skip(1) + b);
        lemma_deframe_append(a.skip(1), b);
    } else if a.len() < 2 || a.len() < FRAME_OVERHEAD + a[1] {
        assert(deframe(a).0 + deframe(a + b).0 =~= deframe(a + b).0);
    } else {
        let n = FRAME_OVERHEAD + a[1];
        assert((a + b).skip(n) =~= a.skip(n) + b);
        assert((a + b).take(n) =~= a.take(n));
        lemma_deframe_append(a.skip(n), b);
        let (fs, rest) = deframe(a.skip(n));
        let (gs, _) = deframe(rest + b);
        assert(seq![a.take(n)] + (fs + gs) =~= seq![a.take(n)] + fs + gs);
    }
}

/// One byte after an unfinished frame starts it, lengthens it or completes it.
proof fn lemma_deframe_push(held: Seq<u8>, b: u8)
    requires
        deframe(held) == (Seq::<Seq<u8>>::empty(), held),
    ensures
        held.len() > 0 ==> held[0] == MAVLINK_MAGIC,
        held.len() == 0 ==> deframe(held.push(b)) == (
            Seq::<Seq<u8>>::empty(),
            if b == MAVLINK_MAGIC {
                seq![b]
            } else {
                Seq::empty()
            },
        ),
        held.len() > 0 && is_frame(held.push(b)) ==> deframe(held.push(b)) == (
            seq![held.push(b)],
            Seq::<u8>::empty(),
        ),
        held.len() > 0 && !is_frame(held.push(b)) ==> deframe(held.push(b)) == (
            Seq::<Seq<u8>>::empty(),
            held.push(b),
        ),
{
    let s = held.push(b);
    if held.len() == 0 {
        assert(s =~= seq![b]);
        assert(s.skip(1) =~= Seq::empty());
        reveal_with_fuel(deframe, 2);
    } else {
        if held[0] != MAVLINK_MAGIC {
            lemma_deframe_rest_shorter(held.skip(1));
            assert(false);
        }
        assert(s[0] == MAVLINK_MAGIC);
        if held.len() >= 2 {
            if held.len() >= FRAME_OVERHEAD + held[1] {
                assert(deframe(held).0.len() > 0);
                assert(false);
            }
            if is_frame(s) {
                assert(s.take(s.len() as int) =~= s);
                assert(s.skip(s.len() as int) =~= Seq::empty());
                assert(deframe(Seq::<u8>::empty()) == (Seq::<Seq<u8>>::empty(), Seq::<u8>::empty()));
                assert(seq![s] + Seq::<Seq<u8>>::empty() =~= seq![s]);
            }
        }
    }
}

/// The unfinished rest is no longer than the stream.
proof fn lemma_deframe_rest_shorter(s: Seq<u8>)
    ensures
        deframe(s).1.len() <= s.len(),
    decreases s.len(),
{
    if s.len() == 0 {
    } else if s[0] != MAVLINK_MAGIC {
        lemma_deframe_rest_shorter(s.skip(1));
    } else if s.len() < 2 || s.len() < FRAME_OVERHEAD + s[1] {
    } else {
        lemma_deframe_rest_shorter(s.skip(FRAME_OVERHEAD + s[1]));
    }
}

/// How a stream is cut into pieces makes no difference: two pieces fed one after the other give
/// the frames, and leave the rest, that the two together give and leave.
pub proof fn lemma_pieces_make_no_difference(pending: Seq<u8>, a: Seq<u8>, b: Seq<u8>)
    ensures
        deframe(pending + (a + b)).0 == deframe(pending + a).0 + deframe(
            deframe(pending + a).1 + b,
        ).0,
        deframe(pending + (a + b)).1 == deframe(deframe(pending + a).1 + b).1,
{
    assert(pending + (a + b) =~= pending + a + b);
    lemma_deframe_append(pending + a, b);
}

/// A stream made of whole frames is cut back into exactly these frames, and nothing is left over.
pub proof fn lemma_frames_survive_the_stream(frames: Seq<Seq<u8>>)
    requires
        forall|i: int| 0 <= i < frames.len() ==> is_frame(#[trigger] frames[i]),
    ensures
        deframe(frames.flatten()) == (frames, Seq::<u8>::empty()),
    decreases frames.len(),
{
    if frames.len() == 0 {
        assert(frames =~= Seq::empty());
    } else {
        let f = frames[0];
        let rest = frames.drop_first();
        assert forall|i: int| 0 <= i < rest.len() implies is_frame(#[trigger] rest[i]) by {
            assert(rest[i] == frames[i + 1]);
        }
        lemma_frames_survive_the_stream(rest);
        let s = frames.flatten();
        assert(s == f + rest.flatten());
        assert(is_frame(f));
        assert(s.take(f.len() as int) =~= f);
        assert(s.skip(f.len() as int) =~= rest.flatten());
        assert(s[0] == f[0] && s[1] == f[1]);
        assert(seq![f] + rest =~= frames);
    }
}

/// Bytes among which none can start a frame are passed over: what follows them is cut as if they
/// had not been there.
pub proof fn lemma_noise_is_passed_over(noise: Seq<u8>, s: Seq<u8>)
    requires
        !noise.contains(MAVLINK_MAGIC),
    ensures
        deframe(noise + s) == deframe(s),
    decreases noise.len(),
{
    if noise.len() == 0 {
        assert(noise + s =~= s);
    } else {
        assert(noise.contains(noise[0]));
        let t = noise.skip(1);
        assert forall|i: int| 0 <= i < t.len() implies t[i] != MAVLINK_MAGIC by {
            assert(noise.contains(noise[i + 1]));
        }
        assert((noise + s).skip(1) =~= t + s);
        lemma_noise_is_passed_over(t, s);
    }
}

/// Every frame that comes out of a stream is whole.
pub proof fn lemma_deframed_are_frames(s: Seq<u8>)
    ensures
        forall|i: int| 0 <= i < deframe(s).0.len() ==> is_frame(#[trigger] deframe(s).0[i]),
    decreases s.len(),
{
    if s.len() == 0 {
    } else if s[0] != MAVLINK_MAGIC {
        lemma_deframed_are_frames(s.skip(1));
        assert(deframe(s) == deframe(s.skip(1)));
    } else if s.len() < 2 || s.len() < FRAME_OVERHEAD + s[1] {
    } else {
        let n = FRAME_OVERHEAD + s[1];
        let rest = deframe(s.skip(n)).0;
        lemma_deframed_are_frames(s.skip(n));
        assert(is_frame(s.take(n)));
        assert forall|i: int| 0 <= i < deframe(s).0.len() implies is_frame(
            #[trigger] deframe(s).0[i],
        ) by {
            if i > 0 {
                assert(deframe(s).0[i] == rest[i - 1]);
            } else {
                assert(deframe(s).0[i] == s.take(n));
            }
        }
    }
}

/// A decoded message: its number and its payload.
pub struct Decoded {
    pub id: u32,
    pub payload: Vec<u8>,
}

/// The messages among the replies of a link, in order. A reply is `None` where the link returned
/// nothing or the decoder refused the frame.
pub open spec fn accepted(replies: Seq<Option<Decoded>>) -> Seq<(u32, Seq<u8>)>
    decreases replies.len(),
{
    if replies.len() == 0 {
        Seq::empty()
    } else {
        let earlier = accepted(replies.drop_last());
        match replies.last() {
            Some(d) => earlier.push((d.id, d.payload@)),
            None => earlier,
        }
    }
}

/// What a loopback yields from the replies to its frames: the accepted messages, in order.
pub fn loopback_telemetry(replies: Vec<Option<Decoded>>) -> (out: Vec<(u32, Vec<u8>)>)
    ensures
        Seq::new(out@.len(), |i: int| (out@[i].0, out@[i].1@)) == accepted(replies@),
{
    let mut out: Vec<(u32, Vec<u8>)> = Vec::new();
    let mut i: usize = 0;
    while i < replies.len()
        invariant
            i <= replies.len(),
            Seq::new(out@.len(), |k: int| (out@[k].0, out@[k].1@)) =~= accepted(
                replies@.take(i as int),
            ),
        decreases replies.len() - i,
    {
        proof {
            assert(replies@.take(i + 1).drop_last() =~= replies@.take(i as int));
        }
        match &replies[i] {
            Some(d) => {
                let payload: Vec<u8> = d.payload.clone();
                proof {
                    assert(payload@ =~= d.payload@);
                }
                out.push((d.id, payload));
            },
            None => {},
        }
        i += 1;
    }
    assert(replies@.take(i as int) =~= replies@);
    out
}

/// A frame is twelve bytes longer than its second byte says, and begins with the byte that starts one.
pub proof fn lemma_frame_shape(f: Seq<u8>)
    ensures
        is_frame(f) <==> f.len() >= 2 && f[0] == 0xFD && f.len() == 12 + f[1],
{
}

/// The accepted messages of two lists of replies are those of the one and those of the other; a reply
/// that holds a message gives that message, and one without gives none.
pub proof fn lemma_accepted(a: Seq<Option<Decoded>>, b: Seq<Option<Decoded>>, d: Decoded)
    ensures
        accepted(a + b) == accepted(a) + accepted(b),
        accepted(seq![Some(d)]) == seq![(d.id, d.payload@)],
        accepted(seq![None::<Decoded>]) == Seq::<(u32, Seq<u8>)>::empty(),
    decreases b.len(),
{
    assert(seq![Some(d)].drop_last() =~= Seq::empty());
    assert(seq![None::<Decoded>].drop_last() =~= Seq::empty());
    assert(accepted(Seq::empty()) == Seq::<(u32, Seq<u8>)>::empty());
    assert(accepted(seq![Some(d)]) =~= seq![(d.id, d.payload@)]);
    if b.len() == 0 {
        assert(a + b =~= a);
        assert(accepted(a) + accepted(b) =~= accepted(a));
    } else {
        assert((a + b).drop_last() =~= a + b.drop_last());
        lemma_accepted(a, b.drop_last(), d);
        assert(accepted(a + b) =~= accepted(a) + accepted(b));
    }
}

/// A beat begins with the heartbeat; attitude and position follow, then the state of the system and
/// the two summaries.
pub proof fn lemma_beat_order()
    ensures
        beat_order().len() == 6,
        beat_order()[0] is Heartbeat && beat_order()[1] is Attitude,
        beat_order()[2] is LocalPosition && beat_order()[3] is SysStatus,
        beat_order()[4] is VfrHud && beat_order()[5] is GlobalPosition,
{
}

} // verus!
