//! The streaming detector: the verified state machine that the background
//! worker runs.
//!
//! The caller pushes PCM chunks with [`AudioSnippetDetector::write`]; the
//! framer turns them into raw frames, which the embedding worker transforms
//! into feature rows — the spectral transform works in floating point and so
//! lives outside this crate — and feeds back through
//! [`AudioSnippetDetector::ingest_feature`]. Completed fingerprint windows
//! are matched against the store and queued for
//! [`AudioSnippetDetector::next`]. `close` stops further input; pushes after
//! it fail with [`DetectorError::StreamClosed`], and a drained, closed
//! detector reports end of stream rather than blocking.

use vstd::prelude::*;

verus! {

use crate::DetectorError;
use crate::FP_WINDOW;
use crate::N_FILTERS;
use crate::aggregator::OverlappingMfccStream;
use crate::aggregator::drain_of;
use crate::aggregator::window_of;
use crate::db::Database;
use crate::db::DatabaseEntry;
use crate::db::QueryResult;
use crate::db::query_post;
use crate::db::query_shape_ok;
use crate::db::some_match;
use crate::framer::SampleFramer;
use crate::framer::frames_between;
use crate::framer::samples_of;
use crate::mat_ok;
use crate::mat_view;
use crate::row_ok;

/// What `next` reports: a queued match, the end of the stream, or that
/// nothing is ready yet and the caller should wait for the worker.
pub enum NextResult {
    Match(QueryResult),
    EndOfStream,
    Pending,
}

/// One detector instance: the fingerprint store and the streaming
/// extraction state, driven synchronously; an embedding worker supplies the
/// spectral transform and the blocking.
pub struct AudioSnippetDetector {
    /// The fingerprint store, shared between enrolment and queries.
    pub db: Database,
    framer: SampleFramer,
    stream: OverlappingMfccStream,
    results: Vec<QueryResult>,
    closed: bool,
}

impl AudioSnippetDetector {
    /// Whether `close` has been called.
    pub closed spec fn is_closed(self) -> bool {
        self.closed
    }

    /// All PCM bytes accepted so far.
    pub closed spec fn bytes_in(self) -> Seq<u8> {
        self.framer.bytes_in()
    }

    /// All feature rows ingested so far.
    pub closed spec fn features_in(self) -> Seq<Seq<i16>> {
        self.stream.pushed_rows()
    }

    /// How many fingerprint windows have been matched so far.
    pub closed spec fn windows_done(self) -> int {
        self.stream.windows_done()
    }

    /// The matches queued for `next`, oldest first.
    pub closed spec fn results_view(self) -> Seq<QueryResult> {
        self.results@
    }

    /// The stored fingerprint entries, in insertion order.
    pub closed spec fn entries(self) -> Seq<DatabaseEntry> {
        self.db.entries_view()
    }

    /// The detector's invariant.
    pub closed spec fn wf(self) -> bool {
        &&& self.db.wf()
        &&& self.framer.wf()
        &&& self.stream.wf()
        &&& self.stream.window_size_spec() == FP_WINDOW
        &&& mat_ok(self.stream.pushed_rows())
    }

    /// A fresh detector: empty store, empty stream, accepting input.
    pub fn new() -> (d: AudioSnippetDetector)
        ensures
            d.wf(),
            !d.is_closed(),
            d.bytes_in() == Seq::<u8>::empty(),
            d.features_in() == Seq::<Seq<i16>>::empty(),
            d.windows_done() == 0,
            d.results_view() == Seq::<QueryResult>::empty(),
            d.entries() == Seq::<DatabaseEntry>::empty(),
    {
        AudioSnippetDetector {
            db: Database::new(),
            framer: SampleFramer::new(),
            stream: OverlappingMfccStream::new(FP_WINDOW),
            results: Vec::new(),
            closed: false,
        }
    }

    /// Accepts one chunk of PCM bytes. After `close` the push is refused
    /// with `StreamClosed`; otherwise the chunk is framed and the completed
    /// raw frames are handed back for spectral extraction.
    pub fn write(&mut self, buffer: Vec<u8>) -> (r: Result<Vec<Vec<i16>>, DetectorError>)
        requires
            old(self).wf(),
        ensures
            final(self).wf(),
            old(self).is_closed() ==> r == Err::<Vec<Vec<i16>>, DetectorError>(
                DetectorError::StreamClosed,
            ) && *final(self) == *old(self),
            !old(self).is_closed() ==> (r matches Ok(frames) && final(self).bytes_in() == old(
                self,
            ).bytes_in() + buffer@ && mat_view(frames@) == frames_between(
                samples_of(final(self).bytes_in()),
                samples_of(old(self).bytes_in()).len() as int,
                samples_of(final(self).bytes_in()).len() as int,
            )),
            final(self).is_closed() == old(self).is_closed(),
            final(self).features_in() == old(self).features_in(),
            final(self).windows_done() == old(self).windows_done(),
            final(self).results_view() == old(self).results_view(),
            final(self).entries() == old(self).entries(),
    {
        if self.closed {
            Err(DetectorError::StreamClosed)
        } else {
            let frames = self.framer.push_bytes(&buffer);
            Ok(frames)
        }
    }

    /// Stops accepting further audio; idempotent. Queued results stay
    /// available to `next`.
    pub fn close(&mut self)
        requires
            old(self).wf(),
        ensures
            final(self).wf(),
            final(self).is_closed(),
            final(self).bytes_in() == old(self).bytes_in(),
            final(self).features_in() == old(self).features_in(),
            final(self).windows_done() == old(self).windows_done(),
            final(self).results_view() == old(self).results_view(),
            final(self).entries() == old(self).entries(),
    {
        self.closed = true;
    }

    /// Feeds one extracted feature row through the window aggregator; when
    /// a fingerprint window completes it is matched against the store, and
    /// a match — only a match — is queued for `next`.
    pub fn ingest_feature(&mut self, row: Vec<i16>)
        requires
            old(self).wf(),
            row@.len() == N_FILTERS,
        ensures
            final(self).wf(),
            final(self).features_in() == old(self).features_in().push(row@),
            final(self).bytes_in() == old(self).bytes_in(),
            final(self).is_closed() == old(self).is_closed(),
            final(self).entries() == old(self).entries(),
            ({
                let fs = old(self).features_in().push(row@);
                let due = fs.len() == drain_of(FP_WINDOW as int) * old(self).windows_done()
                    + FP_WINDOW;
                &&& (!due ==> final(self).results_view() == old(self).results_view()
                    && final(self).windows_done() == old(self).windows_done())
                &&& (due ==> final(self).windows_done() == old(self).windows_done() + 1 && ({
                    let w = window_of(fs, old(self).windows_done(), FP_WINDOW as int);
                    if some_match(old(self).entries(), w) {
                        exists|qr: QueryResult|
                            final(self).results_view() == old(self).results_view().push(qr)
                                && #[trigger] query_post(
                                old(self).entries(),
                                w,
                                Some(qr),
                            )
                    } else {
                        final(self).results_view() == old(self).results_view()
                    }
                }))
            }),
    {
        let ghost fs = self.stream.pushed_rows().push(row@);
        let ghost e = self.stream.windows_done();
        proof {
            self.stream.lemma_wf_counts();
        }
        let m = self.stream.push(row);
        proof {
            assert(mat_ok(self.stream.pushed_rows())) by {
                assert(forall|i: int|
                    0 <= i < fs.len() - 1 ==> #[trigger] fs[i] == old(
                        self,
                    ).stream.pushed_rows()[i]);
            }
        }
        match m {
            Some(window) => {
                proof {
                    let w = window_of(fs, e, FP_WINDOW as int);
                    assert(mat_view(window@) == w);
                    assert(drain_of(FP_WINDOW as int) * e >= 0) by (nonlinear_arith)
                        requires
                            e >= 0,
                    ;
                    assert(w.len() == FP_WINDOW);
                    assert(mat_ok(w)) by {
                        assert(forall|i: int|
                            0 <= i < w.len() ==> #[trigger] w[i] == fs[drain_of(
                                FP_WINDOW as int,
                            ) * e + i]);
                        assert(mat_ok(fs));
                    }
                    assert(query_shape_ok(mat_view(window@)));
                }
                let qr = self.db.query(&window);
                match qr {
                    Some(res) => {
                        proof {
                            assert(query_post(
                                self.db.entries_view(),
                                mat_view(window@),
                                Some(res),
                            ));
                        }
                        self.results.push(res);
                    },
                    None => {
                        proof {
                            assert(!some_match(self.db.entries_view(), mat_view(window@)));
                        }
                    },
                }
            },
            None => {},
        }
    }

    /// Pops the oldest queued match. On an empty queue: end of stream if
    /// the detector is closed, otherwise a report that the caller must wait.
    pub fn next(&mut self) -> (r: NextResult)
        requires
            old(self).wf(),
        ensures
            final(self).wf(),
            final(self).bytes_in() == old(self).bytes_in(),
            final(self).features_in() == old(self).features_in(),
            final(self).windows_done() == old(self).windows_done(),
            final(self).is_closed() == old(self).is_closed(),
            final(self).entries() == old(self).entries(),
            old(self).results_view().len() > 0 ==> (r matches NextResult::Match(qr) && qr == old(
                self,
            ).results_view()[0] && final(self).results_view() == old(self).results_view().skip(
                1,
            )),
            old(self).results_view().len() == 0 && old(self).is_closed() ==> r
                is EndOfStream && final(self).results_view() == old(self).results_view(),
            old(self).results_view().len() == 0 && !old(self).is_closed() ==> r
                is Pending && final(self).results_view() == old(self).results_view(),
    {
        if self.results.len() > 0 {
            let qr = self.results.remove(0);
            proof {
                assert(self.results@ =~= old(self).results@.skip(1));
            }
            NextResult::Match(qr)
        } else if self.closed {
            NextResult::EndOfStream
        } else {
            NextResult::Pending
        }
    }

    /// Enrolls a fingerprint matrix under a label, as the one-shot batch
    /// pipeline does: the caller frames the whole PCM buffer and extracts
    /// its feature rows, and the matrix is inserted into the store.
    pub fn add_fingerprint(&mut self, label: String, fingerprint: Vec<Vec<i16>>) -> (r: Result<
        (),
        DetectorError,
    >)
        requires
            old(self).wf(),
        ensures
            final(self).wf(),
            final(self).bytes_in() == old(self).bytes_in(),
            final(self).features_in() == old(self).features_in(),
            final(self).windows_done() == old(self).windows_done(),
            final(self).results_view() == old(self).results_view(),
            final(self).is_closed() == old(self).is_closed(),
            mat_ok(mat_view(fingerprint@)) ==> r is Ok && final(self).entries() == old(
                self,
            ).entries().push((DatabaseEntry { label, fingerprint })),
            !mat_ok(mat_view(fingerprint@)) ==> r == Err::<(), DetectorError>(
                DetectorError::MalformedFingerprint,
            ) && final(self).entries() == old(self).entries(),
    {
        self.db.insert(label, fingerprint)
    }
}

} // verus!
