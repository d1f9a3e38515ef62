use vstd::prelude::*;

use crate::constants::{AUDIO_PAYLOAD_LEN, SEQUENCE_FIELD_LEN};

verus! {

/// Classification of a recovered frame.
#[derive(Clone, Copy, Debug, PartialEq, Eq, Structural)]
pub enum FrameType {
    LogData,
    AudioData,
}

/// A consumer of recovered frames. `Parser::process` hands every frame it
/// recovers to the registered consumer, synchronously and in stream order.
pub trait FrameConsumer {
    fn on_frame(&mut self, kind: FrameType, bytes: &Vec<u8>);
}

/// Bytes of an audio frame that precede the synchronization marker:
/// the sample payload and the sequence field.
pub open spec fn header_len() -> int {
    AUDIO_PAYLOAD_LEN + SEQUENCE_FIELD_LEN
}

/// The synchronization marker `sync` occurs in `view` at position `i`.
pub open spec fn is_match_at(view: Seq<u8>, sync: Seq<u8>, i: int) -> bool {
    &&& 0 <= i
    &&& i + sync.len() <= view.len()
    &&& forall|k: int| 0 <= k < sync.len() ==> view[i + k] == sync[k]
}

/// The frames one pass emits while scanning `view` for `sync` from position
/// `i` on, with the start of the pending log region at `cursor`.
///
/// A marker at `i < header_len()` cannot terminate a fully buffered audio
/// frame and is skipped. A resolved marker yields the log region between the
/// cursor and the frame start (when non-empty), then the audio frame itself.
pub open spec fn frames_from(view: Seq<u8>, sync: Seq<u8>, i: int, cursor: int) -> Seq<
    (FrameType, Seq<u8>),
>
    decreases view.len() - i
        when 0 <= i && 1 <= sync.len()
{
    if i + sync.len() > view.len() {
        Seq::empty()
    } else if is_match_at(view, sync, i) && i >= header_len() {
        let a: int = i - header_len();
        let e: int = i + sync.len();
        let log_part: Seq<(FrameType, Seq<u8>)> = if cursor < a {
            seq![(FrameType::LogData, view.subrange(cursor, a))]
        } else {
            Seq::empty()
        };
        log_part + seq![(FrameType::AudioData, view.subrange(a, e))] + frames_from(
            view,
            sync,
            i + 1,
            e,
        )
    } else {
        frames_from(view, sync, i + 1, cursor)
    }
}

/// Where the consumed prefix of one pass ends: one past the last resolved
/// marker, or 0 when the pass resolves no marker.
pub open spec fn consumed_from(view: Seq<u8>, sync: Seq<u8>, i: int) -> int
    decreases view.len() - i
        when 0 <= i && 1 <= sync.len()
{
    if i + sync.len() > view.len() {
        0
    } else if is_match_at(view, sync, i) && i >= header_len() {
        let rest: int = consumed_from(view, sync, i + 1);
        if rest == 0 {
            i + sync.len()
        } else {
            rest
        }
    } else {
        consumed_from(view, sync, i + 1)
    }
}

/// A pass scans only when a whole audio frame could already be buffered.
pub open spec fn pass_runs(view: Seq<u8>, sync: Seq<u8>) -> bool {
    view.len() >= header_len() + sync.len()
}

/// The frames one whole pass over `view` emits, in emission order.
pub open spec fn pass_frames(view: Seq<u8>, sync: Seq<u8>) -> Seq<(FrameType, Seq<u8>)> {
    if pass_runs(view, sync) {
        frames_from(view, sync, 0, 0)
    } else {
        Seq::empty()
    }
}

/// How many leading bytes one whole pass over `view` consumes.
pub open spec fn pass_cut(view: Seq<u8>, sync: Seq<u8>) -> int {
    if pass_runs(view, sync) {
        consumed_from(view, sync, 0)
    } else {
        0
    }
}

/// The view of a vector of emitted frames.
pub open spec fn frames_seq(frames: Seq<(FrameType, Vec<u8>)>) -> Seq<(FrameType, Seq<u8>)> {
    frames.map_values(|p: (FrameType, Vec<u8>)| (p.0, p.1@))
}

/// Little-endian value of the four sequence-field bytes that follow the
/// sample payload of an audio frame.
pub open spec fn sequence_of(frame: Seq<u8>) -> int {
    frame[AUDIO_PAYLOAD_LEN as int] + frame[AUDIO_PAYLOAD_LEN + 1] * 0x100 + frame[AUDIO_PAYLOAD_LEN
        + 2] * 0x10000 + frame[AUDIO_PAYLOAD_LEN + 3] * 0x1000000
}

/// Recovers discrete log and audio frames from a continuous byte stream.
///
/// Bytes arrive in arbitrary chunks through `push_data`; each `process` pass
/// scans the accumulated bytes for the synchronization marker, emits the
/// recovered frames to the registered consumer, and discards the consumed
/// prefix while keeping every byte that may still belong to a future frame.
pub struct Parser<C> {
    data_queue: Vec<u8>,
    callback: Option<C>,
    sync_bytes: Vec<u8>,
}

impl<C: FrameConsumer> Parser<C> {
    /// The bytes buffered and not yet classified into an emitted frame.
    pub closed spec fn buffered(&self) -> Seq<u8> {
        self.data_queue@
    }

    /// The synchronization marker this parser scans for.
    pub closed spec fn sync(&self) -> Seq<u8> {
        self.sync_bytes@
    }

    /// Whether a consumer is registered.
    pub closed spec fn consumer_set(&self) -> bool {
        self.callback is Some
    }

    /// A parser is well-formed when its marker is non-empty.
    pub open spec fn wf(&self) -> bool {
        self.sync().len() >= 1
    }

    /// A new parser: empty buffer, no consumer, the given marker.
    pub fn new(sync_bytes: Vec<u8>) -> (parser: Parser<C>)
        requires
            sync_bytes@.len() >= 1,
        ensures
            parser.wf(),
            parser.buffered() == Seq::<u8>::empty(),
            parser.sync() == sync_bytes@,
            !parser.consumer_set(),
    {
        let parser = Parser { data_queue: Vec::new(), callback: None, sync_bytes };
        proof {
            assert(parser.buffered() =~= Seq::<u8>::empty());
        }
        parser
    }

    /// Registers the single consumer that `process` will hand frames to.
    pub fn set_callback(&mut self, callback: C)
        ensures
            final(self).buffered() == old(self).buffered(),
            final(self).sync() == old(self).sync(),
            final(self).consumer_set(),
    {
        self.callback = Some(callback);
    }

    /// Appends raw bytes to the tail of the buffer, preserving their order.
    pub fn push_data(&mut self, data: &[u8])
        ensures
            final(self).buffered() == old(self).buffered() + data@,
            final(self).sync() == old(self).sync(),
            final(self).consumer_set() == old(self).consumer_set(),
    {
        let mut k: usize = 0;
        while k < data.len()
            invariant
                k <= data@.len(),
                self.data_queue@ == old(self).data_queue@ + data@.subrange(0, k as int),
                self.sync_bytes@ == old(self).sync_bytes@,
                self.callback is Some <==> old(self).callback is Some,
            decreases data@.len() - k,
        {
            self.data_queue.push(data[k]);
            proof {
                assert(old(self).data_queue@ + data@.subrange(0, k as int + 1) =~= (old(
                    self,
                ).data_queue@ + data@.subrange(0, k as int)).push(data@[k as int]));
            }
            k = k + 1;
        }
        proof {
            assert(data@.subrange(0, data@.len() as int) =~= data@);
        }
    }

    /// How many bytes are buffered and not yet classified.
    pub fn buffered_len(&self) -> (n: usize)
        ensures
            n == self.buffered().len(),
    {
        self.data_queue.len()
    }

    /// One parse pass: scans the buffered bytes for the marker, emits every
    /// resolvable frame to the registered consumer in stream order, and
    /// discards the consumed prefix. The emitted frames are also returned,
    /// in emission order; without a consumer they are otherwise dropped.
    pub fn process(&mut self) -> (frames: Vec<(FrameType, Vec<u8>)>)
        requires
            old(self).wf(),
        ensures
            final(self).wf(),
            final(self).sync() == old(self).sync(),
            final(self).consumer_set() == old(self).consumer_set(),
            frames_seq(frames@) == pass_frames(old(self).buffered(), old(self).sync()),
            final(self).buffered() == old(self).buffered().skip(
                pass_cut(old(self).buffered(), old(self).sync()),
            ),
    {
        let ghost view: Seq<u8> = self.data_queue@;
        let ghost sync: Seq<u8> = self.sync_bytes@;
        let qlen: usize = self.data_queue.len();
        let slen: usize = self.sync_bytes.len();
        let mut frames: Vec<(FrameType, Vec<u8>)> = Vec::new();

        if !(qlen >= AUDIO_PAYLOAD_LEN + SEQUENCE_FIELD_LEN && qlen - (AUDIO_PAYLOAD_LEN
            + SEQUENCE_FIELD_LEN) >= slen) {
            proof {
                assert(!pass_runs(view, sync));
                assert(frames_seq(frames@) =~= pass_frames(view, sync));
                assert(view.skip(0) =~= view);
            }
            return frames;
        }
        let mut cursor: usize = 0;
        let mut i: usize = 0;
        proof {
            assert(frames_seq(frames@) =~= Seq::<(FrameType, Seq<u8>)>::empty());
            assert(Seq::<(FrameType, Seq<u8>)>::empty() + frames_from(view, sync, 0, 0)
                =~= frames_from(view, sync, 0, 0));
        }
        while i <= qlen - slen
            invariant
                self.data_queue@ == view,
                self.sync_bytes@ == sync,
                self.callback is Some <==> old(self).callback is Some,
                qlen == view.len(),
                slen == sync.len(),
                1 <= slen,
                qlen >= header_len() + slen,
                i <= qlen - slen + 1,
                cursor <= qlen,
                frames_seq(frames@) + frames_from(view, sync, i as int, cursor as int)
                    == frames_from(view, sync, 0, 0),
                consumed_from(view, sync, 0) == (if consumed_from(view, sync, i as int) == 0 {
                    cursor as int
                } else {
                    consumed_from(view, sync, i as int)
                }),
            decreases qlen - i,
        {
            if i >= AUDIO_PAYLOAD_LEN + SEQUENCE_FIELD_LEN && check_match(
                &self.data_queue,
                &self.sync_bytes,
                i,
            ) {
                let a: usize = i - (AUDIO_PAYLOAD_LEN + SEQUENCE_FIELD_LEN);
                let e: usize = i + slen;
                let ghost fprev: Seq<(FrameType, Vec<u8>)> = frames@;
                let ghost ia: int = a as int;
                let ghost ie: int = e as int;
                let ghost icur: int = cursor as int;
                if cursor < a {
                    let log_bytes = copy_range(&self.data_queue, cursor, a);
                    frames.push((FrameType::LogData, log_bytes));
                }
                let audio_bytes = copy_range(&self.data_queue, a, e);
                frames.push((FrameType::AudioData, audio_bytes));
                proof {
                    let log_part: Seq<(FrameType, Seq<u8>)> = if icur < ia {
                        seq![(FrameType::LogData, view.subrange(icur, ia))]
                    } else {
                        Seq::empty()
                    };
                    assert(frames_seq(frames@) =~= frames_seq(fprev) + log_part + seq![
                        (FrameType::AudioData, view.subrange(ia, ie)),
                    ]);
                    assert(frames_from(view, sync, i as int, icur) == log_part + seq![
                        (FrameType::AudioData, view.subrange(ia, ie)),
                    ] + frames_from(view, sync, i as int + 1, ie));
                    assert(frames_seq(frames@) + frames_from(view, sync, i as int + 1, ie)
                        =~= frames_seq(fprev) + frames_from(view, sync, i as int, icur));
                }
                cursor = e;
            } else {
                proof {
                    assert(frames_from(view, sync, i as int, cursor as int) == frames_from(
                        view,
                        sync,
                        i as int + 1,
                        cursor as int,
                    ));
                    assert(consumed_from(view, sync, i as int) == consumed_from(
                        view,
                        sync,
                        i as int + 1,
                    ));
                }
            }
            i = i + 1;
        }
        proof {
            assert(frames_from(view, sync, i as int, cursor as int) =~= Seq::<
                (FrameType, Seq<u8>),
            >::empty());
            assert(frames_seq(frames@) + frames_from(view, sync, i as int, cursor as int)
                =~= frames_seq(frames@));
            assert(consumed_from(view, sync, i as int) == 0);
            assert(pass_runs(view, sync));
            assert(pass_cut(view, sync) == cursor as int);
        }
        let remaining = copy_range(&self.data_queue, cursor, qlen);
        self.data_queue = remaining;
        proof {
            assert(view.subrange(cursor as int, qlen as int) =~= view.skip(cursor as int));
        }
        let taken = self.callback.take();
        match taken {
            Some(mut consumer) => {
                let mut k: usize = 0;
                while k < frames.len()
                    invariant
                        self.data_queue@ == view.skip(pass_cut(view, sync)),
                        self.sync_bytes@ == sync,
                        self.callback is None,
                        frames_seq(frames@) == pass_frames(view, sync),
                    decreases frames@.len() - k,
                {
                    let fr: &(FrameType, Vec<u8>) = &frames[k];
                    consumer.on_frame(fr.0, &fr.1);
                    k = k + 1;
                }
                self.callback = Some(consumer);
            },
            None => {},
        }
        frames
    }

    /// Reads the sequence field of an audio frame: the four bytes after the
    /// sample payload, as an unsigned little-endian integer.
    pub fn extract_frame_number(packet: &[u8]) -> (n: u32)
        requires
            packet@.len() >= AUDIO_PAYLOAD_LEN + SEQUENCE_FIELD_LEN,
        ensures
            n == sequence_of(packet@),
    {
        let b0 = packet[AUDIO_PAYLOAD_LEN] as u32;
        let b1 = packet[AUDIO_PAYLOAD_LEN + 1] as u32;
        let b2 = packet[AUDIO_PAYLOAD_LEN + 2] as u32;
        let b3 = packet[AUDIO_PAYLOAD_LEN + 3] as u32;
        b0 + b1 * 0x100 + b2 * 0x10000 + b3 * 0x1000000
    }
}

/// Compares `sync` against `view` at position `i`.
fn check_match(view: &Vec<u8>, sync: &Vec<u8>, i: usize) -> (r: bool)
    requires
        i + sync@.len() <= view@.len(),
    ensures
        r == is_match_at(view@, sync@, i as int),
{
    let vlen: usize = view.len();
    let slen: usize = sync.len();
    let mut k: usize = 0;
    while k < slen
        invariant
            k <= slen,
            slen == sync@.len(),
            vlen == view@.len(),
            i + slen <= vlen,
            forall|j: int| 0 <= j < k ==> view@[i + j] == sync@[j],
        decreases slen - k,
    {
        if view[i + k] != sync[k] {
            proof {
                assert(view@[i + k as int] != sync@[k as int]);
            }
            return false;
        }
        k = k + 1;
    }
    true
}

/// Copies `view[from..to]` into a fresh vector.
fn copy_range(view: &Vec<u8>, from: usize, to: usize) -> (r: Vec<u8>)
    requires
        from <= to <= view@.len(),
    ensures
        r@ == view@.subrange(from as int, to as int),
{
    let mut r: Vec<u8> = Vec::new();
    let mut k: usize = from;
    proof {
        assert(r@ =~= view@.subrange(from as int, from as int));
    }
    while k < to
        invariant
            from <= k <= to <= view@.len(),
            r@ == view@.subrange(from as int, k as int),
        decreases to - k,
    {
        r.push(view[k]);
        proof {
            assert(view@.subrange(from as int, k as int + 1) =~= view@.subrange(
                from as int,
                k as int,
            ).push(view@[k as int]));
        }
        k = k + 1;
    }
    r
}

} // verus!
