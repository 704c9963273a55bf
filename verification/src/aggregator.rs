//! Grouping of feature vectors into fixed-size, half-overlapping
//! fingerprint windows.
//!
//! Rows are buffered as they arrive; once the buffer holds a full window,
//! the window is emitted and the oldest half is discarded, so consecutive
//! windows share half their rows. Rows short of a full window are never
//! emitted: a stream that ends mid-window loses that tail by design.

use vstd::prelude::*;

verus! {

use crate::mat_view;

/// The number of rows dropped after each emission: the window size minus
/// the overlap of half the window.
pub open spec fn drain_of(w: int) -> int {
    w - w / 2
}

/// The `k`-th window over the pushed rows: `w` consecutive rows starting at
/// row `drain_of(w) * k`.
pub open spec fn window_of(p: Seq<Seq<i16>>, k: int, w: int) -> Seq<Seq<i16>> {
    p.subrange(drain_of(w) * k, drain_of(w) * k + w)
}

/// Buffers feature rows and emits fixed-size windows, each overlapping its
/// predecessor by half.
pub struct OverlappingMfccStream {
    window_size: usize,
    buffer: Vec<Vec<i16>>,
    pushed: Ghost<Seq<Seq<i16>>>,
    emitted: Ghost<int>,
}

/// An element-wise copy of one row.
fn copy_row(r: &Vec<i16>) -> (c: Vec<i16>)
    ensures
        c@ == r@,
{
    let mut c: Vec<i16> = Vec::new();
    let mut k: usize = 0;
    let n = r.len();
    while k < n
        invariant
            n == r@.len(),
            k <= n,
            c@ == r@.take(k as int),
        decreases n - k,
    {
        c.push(r[k]);
        proof {
            assert(r@.take(k + 1) =~= r@.take(k as int).push(r@[k as int]));
        }
        k = k + 1;
    }
    proof {
        assert(r@.take(n as int) =~= r@);
    }
    c
}

impl OverlappingMfccStream {
    /// The configured window size.
    pub closed spec fn window_size_spec(self) -> int {
        self.window_size as int
    }

    /// All rows pushed so far, in order.
    pub closed spec fn pushed_rows(self) -> Seq<Seq<i16>> {
        self.pushed@
    }

    /// How many windows have been emitted so far.
    pub closed spec fn windows_done(self) -> int {
        self.emitted@
    }

    /// The aggregator's invariant: the buffer holds exactly the pushed rows
    /// past the drained prefix, always short of a full window.
    pub closed spec fn wf(self) -> bool {
        &&& 1 <= self.window_size
        &&& 0 <= self.emitted@
        &&& mat_view(self.buffer@) == self.pushed@.skip(
            drain_of(self.window_size as int) * self.emitted@,
        )
        &&& drain_of(self.window_size as int) * self.emitted@ + self.buffer@.len()
            == self.pushed@.len()
        &&& self.buffer@.len() < self.window_size
    }

    /// A well-formed aggregator has emitted a non-negative number of
    /// windows, and has buffered exactly the rows past the drained prefix.
    pub proof fn lemma_wf_counts(self)
        requires
            self.wf(),
        ensures
            0 <= self.windows_done(),
            drain_of(self.window_size_spec()) * self.windows_done() <= self.pushed_rows().len(),
            self.pushed_rows().len() - drain_of(self.window_size_spec()) * self.windows_done()
                < self.window_size_spec(),
    {
    }

    /// A fresh aggregator emitting windows of `window_size` rows.
    pub fn new(window_size: usize) -> (s: OverlappingMfccStream)
        requires
            1 <= window_size,
        ensures
            s.wf(),
            s.window_size_spec() == window_size,
            s.pushed_rows() == Seq::<Seq<i16>>::empty(),
            s.windows_done() == 0,
    {
        let s = OverlappingMfccStream {
            window_size,
            buffer: Vec::new(),
            pushed: Ghost(Seq::empty()),
            emitted: Ghost(0),
        };
        proof {
            assert(drain_of(window_size as int) * 0 == 0) by (nonlinear_arith);
            assert(mat_view(s.buffer@) =~~= s.pushed@.skip(0));
        }
        s
    }

    /// Buffers one row; returns the completed window when the buffer fills,
    /// keeping the newest half for the next window.
    pub fn push(&mut self, row: Vec<i16>) -> (m: Option<Vec<Vec<i16>>>)
        requires
            old(self).wf(),
        ensures
            final(self).wf(),
            final(self).window_size_spec() == old(self).window_size_spec(),
            final(self).pushed_rows() == old(self).pushed_rows().push(row@),
            ({
                let w = old(self).window_size_spec();
                let due = old(self).pushed_rows().len() + 1 == drain_of(w) * old(
                    self,
                ).windows_done() + w;
                &&& (due ==> (m matches Some(mm) && mat_view(mm@) == window_of(
                    final(self).pushed_rows(),
                    old(self).windows_done(),
                    w,
                ) && final(self).windows_done() == old(self).windows_done() + 1))
                &&& (!due ==> m is None && final(self).windows_done() == old(
                    self,
                ).windows_done())
            }),
    {
        let ghost w = self.window_size as int;
        let ghost d = drain_of(w);
        let ghost e = self.emitted@;
        self.buffer.push(row);
        self.pushed = Ghost(self.pushed@.push(row@));
        proof {
            assert(d >= 1 && e >= 0);
            assert(d * e >= 0) by (nonlinear_arith)
                requires
                    d >= 0,
                    e >= 0,
            ;
            assert(mat_view(self.buffer@).len() == self.pushed@.skip(d * e).len());
            assert forall|i: int| 0 <= i < self.buffer@.len() implies mat_view(self.buffer@)[i]
                == self.pushed@.skip(d * e)[i] by {
                assert(mat_view(self.buffer@)[i] == self.buffer@[i]@);
                if i < old(self).buffer@.len() {
                    assert(self.buffer@[i] == old(self).buffer@[i]);
                    assert(mat_view(old(self).buffer@)[i] == old(self).buffer@[i]@);
                    assert(mat_view(old(self).buffer@)[i] == old(self).pushed@.skip(d * e)[i]);
                }
            }
            assert(mat_view(self.buffer@) =~= self.pushed@.skip(d * e));
        }
        if self.buffer.len() == self.window_size {
            let mut m: Vec<Vec<i16>> = Vec::new();
            let mut k: usize = 0;
            let wsize = self.window_size;
            while k < wsize
                invariant
                    wsize == self.window_size,
                    self.buffer@.len() == wsize,
                    k <= wsize,
                    mat_view(m@) == mat_view(self.buffer@).take(k as int),
                decreases wsize - k,
            {
                let c = copy_row(&self.buffer[k]);
                let ghost mv0 = m@;
                m.push(c);
                proof {
                    let bv = mat_view(self.buffer@);
                    assert(mat_view(mv0).len() == mv0.len());
                    assert(bv.len() == wsize);
                    assert(mat_view(mv0) == bv.take(k as int));
                    assert(mv0.len() == k as int);
                    assert(m@.len() == k + 1);
                    assert forall|i: int| 0 <= i < k + 1 implies mat_view(m@)[i] == bv.take(
                        k + 1,
                    )[i] by {
                        assert(m@.len() == k + 1);
                        assert(mat_view(m@)[i] == m@[i]@);
                        assert(bv.take(k + 1)[i] == bv[i]);
                        if i < k {
                            assert(m@[i] == mv0[i]);
                            assert(mat_view(mv0)[i] == mv0[i]@);
                            assert(mat_view(mv0)[i] == bv.take(k as int)[i]);
                        }
                    }
                    assert(mat_view(m@) =~= bv.take(k + 1));
                }
                k = k + 1;
            }
            proof {
                assert(mat_view(m@) =~~= mat_view(self.buffer@));
            }
            let drain = wsize - wsize / 2;
            let mut tail: Vec<Vec<i16>> = Vec::new();
            let mut k2: usize = drain;
            while k2 < wsize
                invariant
                    wsize == self.window_size,
                    self.buffer@.len() == wsize,
                    drain == wsize - wsize / 2,
                    drain <= k2 <= wsize,
                    mat_view(tail@) == mat_view(self.buffer@).subrange(drain as int, k2 as int),
                decreases wsize - k2,
            {
                let c = copy_row(&self.buffer[k2]);
                let ghost tv0 = tail@;
                tail.push(c);
                proof {
                    let bv = mat_view(self.buffer@);
                    assert(mat_view(tv0).len() == tv0.len());
                    assert(bv.len() == wsize);
                    assert(mat_view(tv0) == bv.subrange(drain as int, k2 as int));
                    assert(tv0.len() == k2 - drain);
                    assert(tail@.len() == k2 + 1 - drain);
                    assert forall|i: int| 0 <= i < k2 + 1 - drain implies mat_view(tail@)[i]
                        == bv.subrange(drain as int, k2 + 1)[i] by {
                        assert(tail@.len() == k2 + 1 - drain);
                        assert(mat_view(tail@)[i] == tail@[i]@);
                        assert(bv.subrange(drain as int, k2 + 1)[i] == bv[drain + i]);
                        if i < k2 - drain {
                            assert(tail@[i] == tv0[i]);
                            assert(mat_view(tv0)[i] == tv0[i]@);
                            assert(mat_view(tv0)[i] == bv.subrange(drain as int, k2 as int)[i]);
                        }
                    }
                    assert(mat_view(tail@) =~= bv.subrange(drain as int, k2 + 1));
                }
                k2 = k2 + 1;
            }
            self.buffer = tail;
            self.emitted = Ghost(self.emitted@ + 1);
            proof {
                assert(d * (e + 1) == d * e + d) by (nonlinear_arith);
                assert(d * e >= 0) by (nonlinear_arith)
                    requires
                        d >= 0,
                        e >= 0,
                ;
                assert(mat_view(self.buffer@) =~~= self.pushed@.skip(d * (e + 1)));
                assert(mat_view(m@) =~~= window_of(self.pushed@, e, w));
            }
            Some(m)
        } else {
            None
        }
    }
}

// ---------------------------------------------------------------------------
// Laws of window emission
// ---------------------------------------------------------------------------

/// Every window has exactly `w` rows, and each window's leading overlap —
/// its first `w - drain_of(w)` rows — equals the previous window's trailing
/// overlap. With the fingerprint window of 100 rows, a window's first 50
/// rows equal the previous window's last 50.
pub proof fn lemma_window_overlap(p: Seq<Seq<i16>>, k: int, w: int)
    requires
        1 <= w,
        0 <= k,
        drain_of(w) * (k + 1) + w <= p.len(),
    ensures
        window_of(p, k, w).len() == w,
        window_of(p, k + 1, w).take(w - drain_of(w)) == window_of(p, k, w).skip(drain_of(w)),
{
    let d = drain_of(w);
    assert(d * (k + 1) == d * k + d) by (nonlinear_arith);
    assert(d * k >= 0) by (nonlinear_arith)
        requires
            d >= 0,
            k >= 0,
    ;
    assert(window_of(p, k + 1, w).take(w - d) =~= window_of(p, k, w).skip(d));
}

} // verus!
