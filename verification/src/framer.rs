//! Decoding of the little-endian 16-bit sample stream and the fixed ring
//! buffer that frames it.
//!
//! Bytes arrive in chunks of any size; an odd trailing byte waits for its
//! pair. Each complete pair becomes one sample, written into a circular
//! buffer of `WINDOW_SIZE` samples. Whenever the write index lands on a
//! multiple of `FRAME_HOP`, the buffer is read out oldest-first as one
//! contiguous frame. The buffer starts zeroed, so cold-start frames are
//! implicitly zero-padded.

use vstd::prelude::*;

verus! {

use vstd::arithmetic::div_mod::lemma_fundamental_div_mod;

use crate::FRAME_HOP;
use crate::WINDOW_SIZE;
use crate::mat_view;

/// The signed 16-bit value of one little-endian byte pair.
pub open spec fn sample_val(b0: u8, b1: u8) -> int {
    if b1 >= 128 {
        b0 + 256 * b1 - 65536
    } else {
        b0 + 256 * b1
    }
}

/// The samples decoded from a byte stream, one per complete pair; an odd
/// trailing byte contributes nothing yet.
pub open spec fn samples_of(bytes: Seq<u8>) -> Seq<i16> {
    Seq::new(bytes.len() / 2, |k: int| (sample_val(bytes[2 * k], bytes[2 * k + 1]) as i16))
}

/// The sample at position `i` of the stream preceded by infinitely many
/// zeros.
pub open spec fn padded(h: Seq<i16>, i: int) -> i16 {
    if 0 <= i < h.len() {
        h[i]
    } else {
        0
    }
}

/// The `WINDOW_SIZE` most recent samples of the stream, oldest first, the
/// cold start padded with zeros.
pub open spec fn current_window(h: Seq<i16>) -> Seq<i16> {
    Seq::new(WINDOW_SIZE as nat, |k: int| padded(h, h.len() - WINDOW_SIZE + k))
}

/// A frame is emitted right after the `n`-th sample exactly when the write
/// index — `n` modulo the buffer size — is a multiple of the hop.
pub open spec fn emits_at(n: int) -> bool {
    n > 0 && (n % (WINDOW_SIZE as int)) % (FRAME_HOP as int) == 0
}

/// The frames emitted at sample counts in `(a, b]` of the stream `h`.
pub open spec fn frames_between(h: Seq<i16>, a: int, b: int) -> Seq<Seq<i16>>
    decreases b - a,
{
    if b <= a {
        Seq::empty()
    } else if emits_at(b) {
        frames_between(h, a, b - 1) + seq![current_window(h.take(b))]
    } else {
        frames_between(h, a, b - 1)
    }
}

/// Frames depend only on the prefix of the stream up to their emission
/// point: extending the stream later changes nothing.
proof fn lemma_frames_stable(h: Seq<i16>, s: i16, a: int, b: int)
    requires
        b <= h.len(),
    ensures
        frames_between(h.push(s), a, b) == frames_between(h, a, b),
    decreases b - a,
{
    if b > a {
        lemma_frames_stable(h, s, a, b - 1);
        if emits_at(b) {
            assert(h.push(s).take(b) =~= h.take(b));
        }
    }
}

/// Appending a byte pair to an even-length stream appends one sample.
proof fn lemma_samples_even_push(bytes: Seq<u8>, b0: u8, b1: u8)
    requires
        bytes.len() % 2 == 0,
    ensures
        samples_of(bytes.push(b0).push(b1)) == samples_of(bytes).push(
            (sample_val(b0, b1) as i16),
        ),
{
    let before = samples_of(bytes);
    let after = samples_of(bytes.push(b0).push(b1));
    assert(after =~= before.push((sample_val(b0, b1) as i16))) by {
        assert(forall|k: int|
            0 <= k < before.len() ==> #[trigger] bytes.push(b0).push(b1)[2 * k] == bytes[2 * k]
                && bytes.push(b0).push(b1)[2 * k + 1] == bytes[2 * k + 1]);
    }
}

/// Appending one byte to an even-length stream adds no sample.
proof fn lemma_samples_half_push(bytes: Seq<u8>, b0: u8)
    requires
        bytes.len() % 2 == 0,
    ensures
        samples_of(bytes.push(b0)) == samples_of(bytes),
{
    assert(samples_of(bytes.push(b0)) =~= samples_of(bytes));
}

/// Appending one byte to an odd-length stream completes the last pair and
/// appends one sample.
proof fn lemma_samples_odd_push(bytes: Seq<u8>, b1: u8)
    requires
        bytes.len() % 2 == 1,
    ensures
        samples_of(bytes.push(b1)) == samples_of(bytes).push(
            (sample_val(bytes.last(), b1) as i16),
        ),
{
    let before = samples_of(bytes);
    let after = samples_of(bytes.push(b1));
    assert(after =~= before.push((sample_val(bytes.last(), b1) as i16))) by {
        assert(forall|k: int|
            0 <= k < before.len() ==> #[trigger] bytes.push(b1)[2 * k] == bytes[2 * k]
                && bytes.push(b1)[2 * k + 1] == bytes[2 * k + 1]);
        assert(bytes.push(b1)[2 * (before.len() as int)] == bytes.last());
    }
}

/// The ring holds, rotated by the write index, the most recent window of
/// the stream.
pub open spec fn ring_matches(ring: Seq<i16>, index: int, h: Seq<i16>) -> bool {
    &&& ring.len() == WINDOW_SIZE
    &&& index == (h.len() as int) % (WINDOW_SIZE as int)
    &&& forall|k: int|
        0 <= k < WINDOW_SIZE ==> #[trigger] ring[k] == current_window(h)[(k - index) % (
        WINDOW_SIZE as int)]
}

/// Decodes bytes into normalized-scale samples and frames them through a
/// fixed circular buffer.
pub struct SampleFramer {
    ring: Vec<i16>,
    index: usize,
    pending: Option<u8>,
    taken: Ghost<Seq<u8>>,
}

/// One little-endian byte pair as a signed 16-bit sample.
fn decode_sample(b0: u8, b1: u8) -> (s: i16)
    ensures
        s as int == sample_val(b0, b1),
{
    let lo = b0 as i32;
    let hi = b1 as i32;
    let v: i32 = if hi >= 128 {
        lo + 256 * hi - 65536
    } else {
        lo + 256 * hi
    };
    v as i16
}

impl SampleFramer {
    /// All bytes accepted so far.
    pub closed spec fn bytes_in(self) -> Seq<u8> {
        self.taken@
    }

    /// All samples decoded so far.
    pub open spec fn history(self) -> Seq<i16> {
        samples_of(self.bytes_in())
    }

    /// The framer's invariant: the ring mirrors the recent window of the
    /// decoded stream, and an odd byte count leaves its last byte pending.
    pub closed spec fn wf(self) -> bool {
        &&& ring_matches(self.ring@, self.index as int, self.history())
        &&& (if self.taken@.len() % 2 == 1 {
            self.pending == Some(self.taken@.last())
        } else {
            self.pending is None
        })
    }

    /// A fresh framer: zeroed buffer, nothing pending.
    pub fn new() -> (f: SampleFramer)
        ensures
            f.wf(),
            f.bytes_in() == Seq::<u8>::empty(),
    {
        let mut ring: Vec<i16> = Vec::new();
        let mut k: usize = 0;
        while k < WINDOW_SIZE
            invariant
                k <= WINDOW_SIZE,
                ring@.len() == k,
                forall|i: int| 0 <= i < k ==> ring@[i] == 0i16,
            decreases WINDOW_SIZE - k,
        {
            ring.push(0i16);
            k = k + 1;
        }
        let f = SampleFramer { ring, index: 0, pending: None, taken: Ghost(Seq::empty()) };
        proof {
            assert(f.history() =~= Seq::<i16>::empty());
            assert(forall|k: int|
                0 <= k < WINDOW_SIZE ==> #[trigger] current_window(f.history())[k] == 0i16);
        }
        f
    }

    /// The buffer read out oldest-first, starting at the write index.
    fn rotated(&self) -> (f: Vec<i16>)
        requires
            self.ring@.len() == WINDOW_SIZE,
            self.index < WINDOW_SIZE,
        ensures
            f@.len() == WINDOW_SIZE,
            forall|i: int|
                0 <= i < WINDOW_SIZE ==> #[trigger] f@[i] == self.ring@[(self.index + i) % (
                WINDOW_SIZE as int)],
    {
        let mut f: Vec<i16> = Vec::new();
        let mut i: usize = 0;
        while i < WINDOW_SIZE
            invariant
                self.ring@.len() == WINDOW_SIZE,
                self.index < WINDOW_SIZE,
                i <= WINDOW_SIZE,
                f@.len() == i,
                forall|t: int|
                    0 <= t < i ==> #[trigger] f@[t] == self.ring@[(self.index + t) % (
                    WINDOW_SIZE as int)],
            decreases WINDOW_SIZE - i,
        {
            let j = self.index + i;
            let j = if j >= WINDOW_SIZE {
                j - WINDOW_SIZE
            } else {
                j
            };
            proof {
                lemma_fundamental_div_mod(self.index + i, WINDOW_SIZE as int);
                assert(j == (self.index + i) % (WINDOW_SIZE as int));
            }
            f.push(self.ring[j]);
            i = i + 1;
        }
        f
    }

    /// Writes one sample at the current index and emits the reordered frame
    /// when the index lands on a hop boundary.
    fn feed(&mut self, s: i16, Ghost(h): Ghost<Seq<i16>>) -> (fr: Option<Vec<i16>>)
        requires
            ring_matches(old(self).ring@, old(self).index as int, h),
        ensures
            ring_matches(final(self).ring@, final(self).index as int, h.push(s)),
            final(self).pending == old(self).pending,
            final(self).taken@ == old(self).taken@,
            emits_at(h.len() as int + 1) ==> (fr matches Some(f) && f@ == current_window(h.push(s))),
            !emits_at(h.len() as int + 1) ==> fr is None,
    {
        let idx = self.index;
        let ghost w = WINDOW_SIZE as int;
        self.ring.set(idx, s);
        let newindex = if idx + 1 == WINDOW_SIZE {
            0
        } else {
            idx + 1
        };
        self.index = newindex;
        proof {
            let n = h.len() as int;
            let hh = h.push(s);
            assert(newindex == (n + 1) % w) by {
                lemma_fundamental_div_mod(n, w);
                lemma_fundamental_div_mod(n + 1, w);
            }
            assert forall|k: int| 0 <= k < w implies #[trigger] self.ring@[k] == current_window(
                hh,
            )[(k - newindex) % w] by {
                if k == idx {
                    assert((k - newindex) % w == w - 1);
                    assert(current_window(hh)[w - 1] == padded(hh, n));
                    assert(padded(hh, n) == s);
                } else {
                    let i2 = (k - newindex) % w;
                    assert(0 <= i2 < w);
                    assert(i2 != w - 1) by {
                        if i2 == w - 1 {
                            lemma_fundamental_div_mod(k - newindex, w);
                            lemma_fundamental_div_mod(k - idx, w);
                            assert(k == idx);
                        }
                    }
                    assert((k - idx) % w == i2 + 1) by {
                        lemma_fundamental_div_mod(k - newindex, w);
                        lemma_fundamental_div_mod(k - idx, w);
                    }
                    assert(self.ring@[k] == old(self).ring@[k]);
                    assert(old(self).ring@[k] == current_window(h)[i2 + 1]);
                    assert(current_window(h)[i2 + 1] == padded(h, n - w + i2 + 1));
                    assert(current_window(hh)[i2] == padded(hh, n + 1 - w + i2));
                    assert(padded(hh, n + 1 - w + i2) == padded(h, n - w + i2 + 1));
                }
            }
        }
        if newindex % FRAME_HOP == 0 {
            proof {
                assert(emits_at(h.len() as int + 1));
            }
            let f = self.rotated();
            proof {
                let hh = h.push(s);
                assert(f@ =~= current_window(hh)) by {
                    assert forall|i: int| 0 <= i < WINDOW_SIZE implies f@[i] == current_window(
                        hh,
                    )[i] by {
                        let w2 = WINDOW_SIZE as int;
                        assert(f@[i] == self.ring@[(newindex + i) % w2]);
                        let k = (newindex + i) % w2;
                        assert(self.ring@[k] == current_window(hh)[(k - newindex) % w2]);
                        assert((k - newindex) % w2 == i) by {
                            lemma_fundamental_div_mod(newindex + i, w2);
                            lemma_fundamental_div_mod(k - newindex, w2);
                        }
                    }
                }
            }
            Some(f)
        } else {
            proof {
                assert(!emits_at(h.len() as int + 1));
            }
            None
        }
    }

    /// Accepts one chunk of bytes and returns the frames it completes, in
    /// order. An odd trailing byte is buffered until its pair arrives.
    pub fn push_bytes(&mut self, bytes: &Vec<u8>) -> (frames: Vec<Vec<i16>>)
        requires
            old(self).wf(),
        ensures
            final(self).wf(),
            final(self).bytes_in() == old(self).bytes_in() + bytes@,
            mat_view(frames@) == frames_between(
                final(self).history(),
                old(self).history().len() as int,
                final(self).history().len() as int,
            ),
    {
        let ghost start = self.taken@;
        let ghost h0len = self.history().len() as int;
        let len = bytes.len();
        let mut frames: Vec<Vec<i16>> = Vec::new();
        let mut k: usize = 0;
        proof {
            assert(frames_between(self.history(), h0len, h0len) =~= Seq::<Seq<i16>>::empty());
            assert(mat_view(frames@) =~= Seq::<Seq<i16>>::empty());
        }
        if len > 0 {
            let pending = self.pending;
            match pending {
                Some(b0) => {
                    let b1 = bytes[0];
                    let s = decode_sample(b0, b1);
                    let ghost h = self.history();
                    proof {
                        lemma_samples_odd_push(self.taken@, b1);
                        assert(s == (sample_val(b0, b1) as i16));
                    }
                    self.pending = None;
                    self.taken = Ghost(self.taken@.push(b1));
                    let fr = self.feed(s, Ghost(h));
                    proof {
                        assert(self.history() == h.push(s));
                        lemma_frames_stable(h, s, h0len, h.len() as int);
                        assert(h.take(h.len() as int) =~= h);
                        assert(self.history().take(self.history().len() as int)
                            =~= self.history());
                    }
                    match fr {
                        Some(f) => {
                            frames.push(f);
                            proof {
                                assert(mat_view(frames@) =~= frames_between(
                                    self.history(),
                                    h0len,
                                    self.history().len() as int,
                                ));
                            }
                        },
                        None => {
                            proof {
                                assert(mat_view(frames@) =~= frames_between(
                                    self.history(),
                                    h0len,
                                    self.history().len() as int,
                                ));
                            }
                        },
                    }
                    k = 1;
                },
                None => {},
            }
            proof {
                assert(self.taken@ =~= start + bytes@.take(k as int));
            }
            while len - k >= 2
                invariant
                    len == bytes@.len(),
                    k <= len,
                    ring_matches(self.ring@, self.index as int, self.history()),
                    self.pending is None,
                    self.taken@.len() % 2 == 0,
                    self.taken@ == start + bytes@.take(k as int),
                    h0len <= self.history().len(),
                    mat_view(frames@) == frames_between(
                        self.history(),
                        h0len,
                        self.history().len() as int,
                    ),
                decreases len - k,
            {
                let b0 = bytes[k];
                let b1 = bytes[k + 1];
                let s = decode_sample(b0, b1);
                let ghost h = self.history();
                proof {
                    lemma_samples_even_push(self.taken@, b0, b1);
                    assert(s == (sample_val(b0, b1) as i16));
                    assert(self.taken@.push(b0).push(b1) =~= start + bytes@.take(k + 2));
                }
                self.taken = Ghost(self.taken@.push(b0).push(b1));
                let fr = self.feed(s, Ghost(h));
                proof {
                    assert(self.history() == h.push(s));
                    lemma_frames_stable(h, s, h0len, h.len() as int);
                    assert(self.history().take(self.history().len() as int)
                        =~= self.history());
                }
                match fr {
                    Some(f) => {
                        frames.push(f);
                        proof {
                            assert(mat_view(frames@) =~= frames_between(
                                self.history(),
                                h0len,
                                self.history().len() as int,
                            ));
                        }
                    },
                    None => {
                        proof {
                            assert(mat_view(frames@) =~= frames_between(
                                self.history(),
                                h0len,
                                self.history().len() as int,
                            ));
                        }
                    },
                }
                k = k + 2;
            }
            if k < len {
                let b0 = bytes[k];
                proof {
                    lemma_samples_half_push(self.taken@, b0);
                    assert(self.taken@.push(b0) =~= start + bytes@.take(k + 1));
                }
                self.pending = Some(b0);
                self.taken = Ghost(self.taken@.push(b0));
            }
        }
        proof {
            assert(self.taken@ =~= start + bytes@);
        }
        frames
    }

    /// The frames of one whole PCM buffer, framed from a cold start: the
    /// batch pipeline used when a fingerprint is enrolled.
    pub fn frames_of_pcm(bytes: &Vec<u8>) -> (frames: Vec<Vec<i16>>)
        ensures
            mat_view(frames@) == frames_between(
                samples_of(bytes@),
                0,
                samples_of(bytes@).len() as int,
            ),
    {
        let mut f = SampleFramer::new();
        let frames = f.push_bytes(bytes);
        proof {
            assert(Seq::<u8>::empty() + bytes@ =~= bytes@);
        }
        frames
    }
}

// ---------------------------------------------------------------------------
// Laws of frame emission
// ---------------------------------------------------------------------------

/// Frames are emitted exactly at the sample counts whose write index —
/// the count modulo `WINDOW_SIZE` — is a multiple of `FRAME_HOP`: at
/// 160, 320, 400, 560, 720, 800 and so on.
pub proof fn lemma_emission_points(n: int)
    ensures
        emits_at(n) <==> (n > 0 && (n % 400 == 0 || n % 400 == 160 || n % 400 == 320)),
{
    let m = n % 400;
    assert(0 <= m < 400);
    if m % 160 == 0 {
        lemma_fundamental_div_mod(m, 160);
        assert(m == 160 * (m / 160));
        assert(0 <= m / 160 < 3);
    }
}

/// Before the buffer first wraps, frames come exactly every `FRAME_HOP`
/// samples: for counts below `WINDOW_SIZE`, a frame is emitted iff the
/// count is a positive multiple of the hop. From the first wrap on, the
/// write index alone decides, and the gap at each wrap shortens to
/// `WINDOW_SIZE - 2 * FRAME_HOP` samples.
pub proof fn lemma_early_emission_cadence(n: int)
    requires
        0 < n < WINDOW_SIZE,
    ensures
        emits_at(n) <==> n % (FRAME_HOP as int) == 0,
{
    vstd::arithmetic::div_mod::lemma_small_mod(n as nat, WINDOW_SIZE as nat);
}

/// Framing is a pure function of the input bytes: two cold-start runs over
/// identical buffers yield identical frames.
pub proof fn lemma_framing_deterministic(
    bytes: Seq<u8>,
    frames1: Seq<Seq<i16>>,
    frames2: Seq<Seq<i16>>,
)
    requires
        frames1 == frames_between(samples_of(bytes), 0, samples_of(bytes).len() as int),
        frames2 == frames_between(samples_of(bytes), 0, samples_of(bytes).len() as int),
    ensures
        frames1 == frames2,
{
}

/// Once the stream holds a full buffer of samples, every emitted frame is
/// exactly the `WINDOW_SIZE` most recently written samples, oldest first.
pub proof fn lemma_window_holds_recent(h: Seq<i16>)
    requires
        h.len() >= WINDOW_SIZE,
    ensures
        current_window(h) == h.skip(h.len() - WINDOW_SIZE),
{
    assert(current_window(h) =~= h.skip(h.len() - WINDOW_SIZE));
}

} // verus!
