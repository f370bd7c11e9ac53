//! Streaming frame synchronizer.
//!
//! Bytes arrive in chunks of any size. The synchronizer keeps what it has not
//! yet consumed, and each call of [`FrameSync::feed`] runs one extraction pass
//! over it: garbage before a header byte is dropped, a false or corrupted frame
//! start costs exactly one byte, and every valid frame found is decoded and
//! consumed whole.

use vstd::prelude::*;
use crate::frame::{
    calculate_checksum, checksum_of, decode, frame_valid, parse_frame, SensorData, CHECKED_LEN,
    FRAME_HEADER_1, FRAME_HEADER_2, FRAME_LEN,
};

verus! {

/// What one extraction pass reports, in stream order.
#[derive(Clone, Copy, Debug, PartialEq, Eq, Structural)]
pub enum SyncEvent {
    /// A valid frame was found and decoded.
    Reading(SensorData),
    /// A candidate frame with both header bytes failed its checksum; the
    /// synchronizer dropped its first byte and scanned on.
    ChecksumMismatch { expected: u8, actual: u8 },
}

/// The mismatch event for the candidate frame at the start of `b`.
pub open spec fn mismatch_of(b: Seq<u8>) -> SyncEvent
    recommends
        b.len() >= FRAME_LEN,
{
    SyncEvent::ChecksumMismatch { expected: checksum_of(b.take(CHECKED_LEN as int)), actual: b[16] }
}

/// Resynchronizing scan over `b`, from the search for a first header byte on.
///
/// Returns the events of the pass, in stream order, and the bytes left over
/// to wait for more input.
pub open spec fn scan(b: Seq<u8>) -> (Seq<SyncEvent>, Seq<u8>)
    decreases b.len(),
{
    if b.len() == 0 {
        // no header byte anywhere: everything was garbage
        (Seq::empty(), Seq::empty())
    } else if b[0] != FRAME_HEADER_1 {
        // noise before a header byte
        scan(b.drop_first())
    } else if b.len() < FRAME_LEN {
        // a frame start that is not complete yet
        (Seq::empty(), b)
    } else if b[1] != FRAME_HEADER_2 {
        // a false header: give up this one byte only
        scan(b.drop_first())
    } else if !frame_valid(b) {
        // a bad checksum: report it and give up this one byte only
        let more = scan(b.drop_first());
        (seq![mismatch_of(b)] + more.0, more.1)
    } else {
        let found = SyncEvent::Reading(decode(b));
        let rest = b.skip(FRAME_LEN as int);
        if rest.len() < FRAME_LEN {
            (seq![found], rest)
        } else {
            let more = scan(rest);
            (seq![found] + more.0, more.1)
        }
    }
}

/// One full extraction pass over the buffered bytes `b`: nothing is done
/// while fewer than a frame's length of bytes are held.
pub open spec fn extract(b: Seq<u8>) -> (Seq<SyncEvent>, Seq<u8>) {
    if b.len() < FRAME_LEN {
        (Seq::empty(), b)
    } else {
        scan(b)
    }
}

/// The bytes left over by a pass never hold a whole frame's length.
pub proof fn lemma_scan_leaves_short(b: Seq<u8>)
    ensures
        scan(b).1.len() < FRAME_LEN,
    decreases b.len(),
{
    if b.len() == 0 {
    } else if b[0] != FRAME_HEADER_1 {
        lemma_scan_leaves_short(b.drop_first());
    } else if b.len() < FRAME_LEN {
    } else if b[1] != FRAME_HEADER_2 || !frame_valid(b) {
        lemma_scan_leaves_short(b.drop_first());
    } else {
        let rest = b.skip(FRAME_LEN as int);
        if rest.len() >= FRAME_LEN {
            lemma_scan_leaves_short(rest);
        }
    }
}

/// Whatever has been fed, the synchronizer holds fewer bytes than one frame
/// after each pass, so its buffer cannot grow without bound.
pub proof fn lemma_pending_bounded(b: Seq<u8>)
    ensures
        extract(b).1.len() < FRAME_LEN,
{
    if b.len() >= FRAME_LEN {
        lemma_scan_leaves_short(b);
    }
}

/// Whether `g` holds no first header byte at all.
pub open spec fn has_no_header(g: Seq<u8>) -> bool {
    forall|i: int| 0 <= i < g.len() ==> g[i] != FRAME_HEADER_1
}

/// Bytes without a header byte in front of the stream are skipped without
/// effect on what follows.
pub proof fn lemma_scan_skips_noise(g: Seq<u8>, r: Seq<u8>)
    requires
        has_no_header(g),
    ensures
        scan(g + r) == scan(r),
    decreases g.len(),
{
    if g.len() > 0 {
        assert((g + r)[0] == g[0]);
        assert((g + r).drop_first() =~= g.drop_first() + r);
        lemma_scan_skips_noise(g.drop_first(), r);
    } else {
        assert(g + r =~= r);
    }
}

/// Fewer bytes than one frame never yield an event.
pub proof fn lemma_scan_short_yields_nothing(b: Seq<u8>)
    requires
        b.len() < FRAME_LEN,
    ensures
        scan(b).0 == Seq::<SyncEvent>::empty(),
    decreases b.len(),
{
    if b.len() > 0 && b[0] != FRAME_HEADER_1 {
        lemma_scan_short_yields_nothing(b.drop_first());
    }
}

/// A valid frame fed in two pieces, split at any point, yields exactly its
/// own record and leaves nothing held, as it does when fed whole.
pub proof fn lemma_split_frame(f: Seq<u8>, k: int)
    requires
        f.len() == FRAME_LEN,
        frame_valid(f),
        0 <= k <= FRAME_LEN,
    ensures
        extract(f) == (seq![SyncEvent::Reading(decode(f))], Seq::<u8>::empty()),
        extract(f.take(k)).0 + extract(extract(f.take(k)).1 + f.skip(k)).0 == seq![
            SyncEvent::Reading(decode(f)),
        ],
        extract(extract(f.take(k)).1 + f.skip(k)).1 == Seq::<u8>::empty(),
{
    assert(f.skip(FRAME_LEN as int) =~= Seq::<u8>::empty());
    if k < FRAME_LEN {
        assert(f.take(k) + f.skip(k) =~= f);
        let e = SyncEvent::Reading(decode(f));
        assert(Seq::<SyncEvent>::empty() + seq![e] =~= seq![e]);
    } else {
        assert(f.take(k) =~= f);
        assert(f.skip(k) =~= Seq::<u8>::empty());
        assert(Seq::<u8>::empty() + Seq::<u8>::empty() =~= Seq::<u8>::empty());
        let e = SyncEvent::Reading(decode(f));
        assert(seq![e] + Seq::<SyncEvent>::empty() =~= seq![e]);
    }
}

/// Two valid frames, each preceded by header-free garbage, yield their two
/// records in order, no other event, and leave nothing held.
pub proof fn lemma_frames_among_garbage(g1: Seq<u8>, f1: Seq<u8>, g2: Seq<u8>, f2: Seq<u8>)
    requires
        has_no_header(g1),
        has_no_header(g2),
        f1.len() == FRAME_LEN,
        frame_valid(f1),
        f2.len() == FRAME_LEN,
        frame_valid(f2),
    ensures
        extract(g1 + f1 + g2 + f2) == (
            seq![SyncEvent::Reading(decode(f1)), SyncEvent::Reading(decode(f2))],
            Seq::<u8>::empty(),
        ),
{
    let tail = g2 + f2;
    assert(g1 + f1 + g2 + f2 =~= g1 + (f1 + tail));
    lemma_scan_skips_noise(g1, f1 + tail);
    let b = f1 + tail;
    assert(b[0] == f1[0] && b[1] == f1[1] && b[16] == f1[16]);
    assert(b.take(CHECKED_LEN as int) =~= f1.take(CHECKED_LEN as int));
    assert(decode(b) == decode(f1));
    assert(b.skip(FRAME_LEN as int) =~= g2 + f2);
    lemma_scan_skips_noise(g2, f2);
    assert(f2.skip(FRAME_LEN as int) =~= Seq::<u8>::empty());
    let e1 = SyncEvent::Reading(decode(f1));
    let e2 = SyncEvent::Reading(decode(f2));
    assert(seq![e1] + seq![e2] =~= seq![e1, e2]);
}

/// Bytes without any header byte yield no event; once they fill a frame's
/// length they are dropped altogether.
pub proof fn lemma_no_header_discarded(b: Seq<u8>)
    requires
        has_no_header(b),
    ensures
        extract(b).0 == Seq::<SyncEvent>::empty(),
        b.len() >= FRAME_LEN ==> extract(b).1 == Seq::<u8>::empty(),
{
    assert(b + Seq::<u8>::empty() =~= b);
    lemma_scan_skips_noise(b, Seq::<u8>::empty());
}

/// Seventeen bytes whose last byte is not the checksum of the others yield no
/// record: a mismatch event if both header bytes are right, else nothing.
pub proof fn lemma_bad_checksum_no_reading(f: Seq<u8>)
    requires
        f.len() == FRAME_LEN,
        f[16] != checksum_of(f.take(CHECKED_LEN as int)),
    ensures
        extract(f).0 == (if f[0] == FRAME_HEADER_1 && f[1] == FRAME_HEADER_2 {
            seq![mismatch_of(f)]
        } else {
            Seq::<SyncEvent>::empty()
        }),
{
    lemma_scan_short_yields_nothing(f.drop_first());
    if f[0] == FRAME_HEADER_1 && f[1] == FRAME_HEADER_2 {
        assert(seq![mismatch_of(f)] + Seq::<SyncEvent>::empty() =~= seq![mismatch_of(f)]);
    }
}

/// After any input, a pass over no new bytes yields no event and leaves the
/// held bytes as they were, however often it is repeated.
pub proof fn lemma_idle_feed(b: Seq<u8>)
    ensures
        extract(extract(b).1 + Seq::<u8>::empty()) == (Seq::<SyncEvent>::empty(), extract(b).1),
{
    lemma_pending_bounded(b);
    assert(extract(b).1 + Seq::<u8>::empty() =~= extract(b).1);
}

/// A frame synchronizer for one serial link.
pub struct FrameSync {
    buffer: Vec<u8>,
}

impl View for FrameSync {
    type V = Seq<u8>;

    /// The bytes received and not yet consumed.
    closed spec fn view(&self) -> Seq<u8> {
        self.buffer@
    }
}

impl FrameSync {
    /// A synchronizer that holds no bytes.
    pub fn new() -> (r: FrameSync)
        ensures
            r@ == Seq::<u8>::empty(),
    {
        FrameSync { buffer: Vec::new() }
    }

    /// The bytes received and not yet consumed.
    pub fn pending(&self) -> (r: &[u8])
        ensures
            r@ == self@,
    {
        self.buffer.as_slice()
    }

    /// Appends `chunk` to the held bytes and runs one extraction pass.
    ///
    /// Returns the pass's events in stream order: a reading for each valid
    /// frame, a mismatch for each candidate whose checksum failed. The bytes
    /// the pass leaves over stay held for the next call.
    pub fn feed(&mut self, chunk: &[u8]) -> (out: Vec<SyncEvent>)
        requires
            old(self)@.len() + chunk@.len() <= usize::MAX,
        ensures
            (out@, final(self)@) == extract(old(self)@ + chunk@),
            final(self)@.len() < FRAME_LEN,
    {
        let mut i: usize = 0;
        while i < chunk.len()
            invariant
                i <= chunk@.len(),
                old(self)@.len() + chunk@.len() <= usize::MAX,
                self.buffer@ == old(self)@ + chunk@.take(i as int),
            decreases chunk@.len() - i,
        {
            self.buffer.push(chunk[i]);
            i = i + 1;
            proof {
                assert(self.buffer@ =~= old(self)@ + chunk@.take(i as int));
            }
        }
        let ghost all = self.buffer@;
        proof {
            assert(chunk@.take(chunk@.len() as int) =~= chunk@);
            assert(all.skip(0) =~= all);
            lemma_pending_bounded(all);
        }
        let n = self.buffer.len();
        let mut out: Vec<SyncEvent> = Vec::new();
        let mut pos: usize = 0;
        if n >= FRAME_LEN {
            loop
                invariant_except_break
                    pos <= n,
                    n == all.len(),
                    self.buffer@ == all,
                    extract(all) == (out@ + scan(all.skip(pos as int)).0, scan(all.skip(pos as int)).1),
                ensures
                    pos <= n,
                    n == all.len(),
                    self.buffer@ == all,
                    extract(all) == (out@, all.skip(pos as int)),
                decreases n - pos,
            {
                let ghost start = pos;
                // drop the noise before the next header byte
                while pos < n && self.buffer[pos] != FRAME_HEADER_1
                    invariant
                        start <= pos <= n,
                        n == all.len(),
                        self.buffer@ == all,
                        extract(all) == (out@ + scan(all.skip(pos as int)).0, scan(all.skip(pos as int)).1),
                    decreases n - pos,
                {
                    proof {
                        assert(all.skip(pos as int).drop_first() =~= all.skip(pos as int + 1));
                    }
                    pos = pos + 1;
                }
                if pos == n {
                    proof {
                        assert(all.skip(pos as int) =~= Seq::<u8>::empty());
                        assert(out@ + Seq::<SyncEvent>::empty() =~= out@);
                    }
                    break;
                }
                if n - pos < FRAME_LEN {
                    proof {
                        assert(out@ + Seq::<SyncEvent>::empty() =~= out@);
                    }
                    break;
                }
                let ghost b = all.skip(pos as int);
                if self.buffer[pos + 1] != FRAME_HEADER_2 {
                    proof {
                        assert(b.drop_first() =~= all.skip(pos as int + 1));
                    }
                    pos = pos + 1;
                    continue;
                }
                let window = vstd::slice::slice_subrange(self.buffer.as_slice(), pos, n);
                proof {
                    assert(window@ =~= b);
                }
                match parse_frame(window) {
                    Some(d) => {
                        let ghost before = out@;
                        out.push(SyncEvent::Reading(d));
                        pos = pos + FRAME_LEN;
                        proof {
                            assert(b.skip(FRAME_LEN as int) =~= all.skip(pos as int));
                        }
                        if n - pos < FRAME_LEN {
                            proof {
                                assert(before + seq![SyncEvent::Reading(d)] =~= out@);
                            }
                            break;
                        }
                        proof {
                            let more = scan(all.skip(pos as int));
                            assert(before + (seq![SyncEvent::Reading(d)] + more.0) =~= out@ + more.0);
                        }
                    },
                    None => {
                        let expected = calculate_checksum(
                            vstd::slice::slice_subrange(self.buffer.as_slice(), pos, pos + CHECKED_LEN),
                        );
                        let actual = self.buffer[pos + CHECKED_LEN];
                        let ghost before = out@;
                        out.push(SyncEvent::ChecksumMismatch { expected, actual });
                        pos = pos + 1;
                        proof {
                            assert(all.subrange(pos - 1, pos - 1 + CHECKED_LEN) =~= b.take(CHECKED_LEN as int));
                            assert(b.drop_first() =~= all.skip(pos as int));
                            let more = scan(all.skip(pos as int));
                            assert(before + (seq![mismatch_of(b)] + more.0) =~= out@ + more.0);
                        }
                    },
                }
            }
        }
        let mut tail: Vec<u8> = Vec::new();
        let mut j: usize = pos;
        while j < n
            invariant
                pos <= j <= n,
                n == all.len(),
                self.buffer@ == all,
                tail@ == all.subrange(pos as int, j as int),
            decreases n - j,
        {
            tail.push(self.buffer[j]);
            j = j + 1;
            proof {
                assert(tail@ =~= all.subrange(pos as int, j as int));
            }
        }
        proof {
            assert(tail@ =~= all.skip(pos as int));
        }
        self.buffer = tail;
        out
    }
}

} // verus!
