//! The streaming frame search: a buffer of samples awaiting analysis, scanned
//! window by window for the best-scoring character frame.
use crate::scan::{bytes_of, frame_candidates, scan, scores_as, ScanOutcome};
use crate::timing::{ConfigError, Timing};
use vstd::prelude::*;

verus! {

/// The analysis of one candidate frame: its confidence score (zero for a
/// window that is not a valid frame) and the byte it carries.
#[derive(Debug, Clone, Copy, PartialEq, Eq, Structural)]
pub struct Candidate {
    pub score: u32,
    pub byte: u8,
}

/// A search to run over the buffer: a frame of `frame_len` samples is analysed
/// at each of the `offsets` positions that follow `start`.
#[derive(Debug, Clone, Copy, PartialEq, Eq, Structural)]
pub struct SearchWindow {
    pub start: usize,
    pub offsets: usize,
    pub frame_len: usize,
}

/// Index of the first candidate with the highest score.
pub open spec fn best_index(c: Seq<Candidate>) -> int
    decreases c.len(),
{
    if c.len() <= 1 {
        0
    } else {
        let k = best_index(c.drop_last());
        if c.last().score > c[k].score {
            c.len() - 1
        } else {
            k
        }
    }
}

/// The chosen candidate scores highest of all, and strictly higher than every
/// candidate before it.
pub proof fn lemma_best_index_is_first_max(c: Seq<Candidate>)
    requires
        c.len() >= 1,
    ensures
        0 <= best_index(c) < c.len(),
        forall|j: int| 0 <= j < c.len() ==> #[trigger] c[j].score <= c[best_index(c)].score,
        forall|j: int| 0 <= j < best_index(c) ==> #[trigger] c[j].score < c[best_index(c)].score,
    decreases c.len(),
{
    if c.len() > 1 {
        let init = c.drop_last();
        lemma_best_index_is_first_max(init);
        assert forall|j: int| 0 <= j < init.len() implies init[j] == c[j] by {}
    }
}

/// The state of a frame finder, as a reader of its contracts sees it.
pub struct FinderView<S> {
    /// Samples received and not yet dropped, oldest first.
    pub buffer: Seq<S>,
    /// Index in the whole sample stream of the first buffered sample.
    pub origin: nat,
    /// Buffer index of the first sample not yet accepted or rejected.
    pub cursor: nat,
    /// Whether a frame has been accepted since the last reset.
    pub tracking: bool,
    pub timing: Timing,
    pub threshold: u32,
}

impl<S> FinderView<S> {
    pub open spec fn wf(self) -> bool {
        &&& self.timing.wf()
        &&& self.threshold > 0
        &&& self.cursor <= self.buffer.len()
    }

    /// Index in the whole sample stream of the first sample not yet accepted
    /// or rejected.
    pub open spec fn position(self) -> int {
        (self.origin + self.cursor) as int
    }

    /// Offsets tried by the next search.
    pub open spec fn window(self) -> int {
        self.timing.spec_search_window(self.tracking)
    }

    /// Samples per character frame.
    pub open spec fn frame_len(self) -> int {
        self.timing.spec_samples_per_character()
    }

    /// Enough samples are buffered for the next search.
    pub open spec fn pending(self) -> bool {
        self.cursor + self.window() + self.frame_len() <= self.buffer.len()
    }
}

/// Streaming decoder state: buffered samples, the search cursor and whether a
/// frame alignment has been found.
pub struct FrameFinder<S> {
    timing: Timing,
    threshold: u32,
    buffer: Vec<S>,
    receiving: bool,
    cursor: usize,
    origin: Ghost<nat>,
}

impl<S> View for FrameFinder<S> {
    type V = FinderView<S>;

    closed spec fn view(&self) -> FinderView<S> {
        FinderView {
            buffer: self.buffer@,
            origin: self.origin@,
            cursor: self.cursor as nat,
            tracking: self.receiving,
            timing: self.timing,
            threshold: self.threshold,
        }
    }
}

impl<S> FrameFinder<S> {
    pub open spec fn wf(&self) -> bool {
        self@.wf()
    }

    /// A finder for the given rates and confidence threshold, in search mode
    /// with an empty buffer. The rates are checked as `Timing::new` checks
    /// them, then the threshold.
    pub fn new(sample_rate: u32, baud_rate: u32, threshold: u32) -> (r: Result<
        FrameFinder<S>,
        ConfigError,
    >)
        ensures
            Timing::spec_new(sample_rate, baud_rate) matches Err(e) ==> r == Err::<
                FrameFinder<S>,
                ConfigError,
            >(e),
            Timing::spec_new(sample_rate, baud_rate) is Ok && threshold == 0 ==> r == Err::<
                FrameFinder<S>,
                ConfigError,
            >(ConfigError::ZeroThreshold),
            Timing::spec_new(sample_rate, baud_rate) is Ok && threshold > 0 ==> r is Ok,
            r matches Ok(finder) ==> ({
                &&& finder.wf()
                &&& finder@.buffer.len() == 0
                &&& finder@.origin == 0
                &&& finder@.cursor == 0
                &&& !finder@.tracking
                &&& finder@.timing == Timing { sample_rate, baud_rate }
                &&& finder@.threshold == threshold
            }),
    {
        match Timing::new(sample_rate, baud_rate) {
            Err(e) => Err(e),
            Ok(timing) => {
                if threshold == 0 {
                    Err(ConfigError::ZeroThreshold)
                } else {
                    Ok(FrameFinder {
                        timing,
                        threshold,
                        buffer: Vec::new(),
                        receiving: false,
                        cursor: 0,
                        origin: Ghost(0),
                    })
                }
            }
        }
    }

    /// Clears the frame lock after a loss of signal; the buffered samples stay,
    /// as they may hold the start of the next transmission.
    pub fn reset_state(&mut self)
        requires
            old(self).wf(),
        ensures
            final(self).wf(),
            final(self)@ == (FinderView { tracking: false, ..old(self)@ }),
    {
        self.receiving = false;
    }

    /// Whether a frame has been accepted since the last reset.
    pub fn is_receiving(&self) -> (r: bool)
        ensures
            r == self@.tracking,
    {
        self.receiving
    }

    /// The buffered samples, oldest first.
    pub fn buffer(&self) -> (samples: &[S])
        ensures
            samples@ == self@.buffer,
    {
        self.buffer.as_slice()
    }

    /// The next search over the buffer, if enough samples are buffered for it.
    pub fn pending_window(&self) -> (w: Option<SearchWindow>)
        requires
            self.wf(),
        ensures
            w is Some <==> self@.pending(),
            w matches Some(win) ==> ({
                &&& win.start == self@.cursor
                &&& win.offsets == self@.window()
                &&& win.frame_len == self@.frame_len()
            }),
    {
        let window = self.timing.search_window(self.receiving);
        let frame_len = self.timing.samples_per_character();
        let room = (self.buffer.len() - self.cursor) as u64;
        if frame_len <= room && window <= room - frame_len {
            Some(SearchWindow { start: self.cursor, offsets: window as usize, frame_len: frame_len as usize })
        } else {
            None
        }
    }

    /// Concludes the pending search from the analysis of its candidate frames,
    /// `candidates[k]` being the frame that starts `k` samples after the
    /// cursor. The best candidate (the first with the highest score) is
    /// accepted when its score reaches the threshold: its byte is returned,
    /// the finder tracks, and the cursor moves to the end of that frame.
    /// Otherwise nothing is returned and the cursor moves past every offset
    /// tried.
    pub fn step(&mut self, candidates: &[Candidate]) -> (found: Option<u8>)
        requires
            old(self).wf(),
            old(self)@.pending(),
            candidates@.len() == old(self)@.window(),
        ensures
            final(self).wf(),
            ({
                let best = candidates@[best_index(candidates@)];
                let frame_start = old(self)@.cursor + best_index(candidates@);
                if best.score >= old(self)@.threshold {
                    &&& found == Some(best.byte)
                    &&& final(self)@ == (FinderView {
                        cursor: (frame_start + old(self)@.frame_len()) as nat,
                        tracking: true,
                        ..old(self)@
                    })
                } else {
                    &&& found is None
                    &&& final(self)@ == (FinderView {
                        cursor: (old(self)@.cursor + old(self)@.window()) as nat,
                        ..old(self)@
                    })
                }
            }),
    {
        proof {
            self.timing.lemma_search_window_positive(self.receiving);
            lemma_best_index_is_first_max(candidates@);
        }
        let mut best: usize = 0;
        let mut k: usize = 1;
        while k < candidates.len()
            invariant
                1 <= k <= candidates@.len(),
                best == best_index(candidates@.take(k as int)),
                0 <= best < k,
            decreases candidates@.len() - k,
        {
            proof {
                lemma_best_index_is_first_max(candidates@.take(k as int));
            }
            assert(candidates@.take(k + 1).drop_last() =~= candidates@.take(k as int));
            if candidates[k].score > candidates[best].score {
                best = k;
            }
            k = k + 1;
        }
        assert(candidates@.take(candidates@.len() as int) =~= candidates@);
        let chosen = candidates[best];
        let buffered = self.buffer.len();
        assert(self.cursor + candidates@.len() + self@.frame_len() <= buffered);
        if chosen.score >= self.threshold {
            let spc = self.timing.samples_per_character();
            assert(self.cursor + best + spc <= buffered);
            let frame_len = spc as usize;
            self.cursor = self.cursor + best + frame_len;
            self.receiving = true;
            Some(chosen.byte)
        } else {
            self.cursor = self.cursor + candidates.len();
            None
        }
    }

    /// Drops the samples before the cursor: they are accepted or rejected.
    pub fn commit(&mut self)
        requires
            old(self).wf(),
        ensures
            final(self).wf(),
            final(self)@ == (FinderView {
                buffer: old(self)@.buffer.skip(old(self)@.cursor as int),
                origin: old(self)@.origin + old(self)@.cursor,
                cursor: 0,
                ..old(self)@
            }),
    {
        let rest = self.buffer.split_off(self.cursor);
        self.buffer = rest;
        self.origin = Ghost(self.origin@ + self.cursor as nat);
        self.cursor = 0;
    }
}

impl<S: Copy> FrameFinder<S> {
    /// Appends newly received samples to the buffer.
    pub fn append(&mut self, samples: &[S])
        requires
            old(self).wf(),
        ensures
            final(self).wf(),
            final(self)@ == (FinderView { buffer: old(self)@.buffer + samples@, ..old(self)@ }),
    {
        let mut i: usize = 0;
        while i < samples.len()
            invariant
                i <= samples@.len(),
                self.wf(),
                self@ == (FinderView {
                    buffer: old(self)@.buffer + samples@.take(i as int),
                    ..old(self)@
                }),
            decreases samples@.len() - i,
        {
            self.buffer.push(samples[i]);
            i = i + 1;
            assert(old(self)@.buffer + samples@.take(i as int) =~= self.buffer@);
        }
        assert(samples@.take(samples@.len() as int) =~= samples@);
    }

    /// Appends `samples`, runs every search that the buffer then allows with
    /// each candidate frame scored by `analyze`, and drops the samples that
    /// were accepted or rejected. Returns the bytes found, in stream order, or
    /// `None` when there were none.
    ///
    /// Whatever the scores, when it returns no further search fits in the
    /// buffer, the buffer holds exactly the tail of the stream from the
    /// cursor on, and each byte found consumed a frame's worth of samples of
    /// its own. Where `analyze` scores a frame by its samples alone, what it
    /// finds is what `scan` finds over the buffer.
    pub fn push<F: Fn(&[S]) -> Candidate>(&mut self, samples: &[S], analyze: &F) -> (found:
        Option<Vec<u8>>)
        requires
            old(self).wf(),
            forall|frame: &[S]| #[trigger] analyze.requires((frame,)),
        ensures
            final(self).wf(),
            final(self)@.cursor == 0,
            !final(self)@.pending(),
            final(self)@.timing == old(self)@.timing,
            final(self)@.threshold == old(self)@.threshold,
            final(self)@.position() >= old(self)@.position(),
            final(self)@.origin + final(self)@.buffer.len() == old(self)@.origin
                + old(self)@.buffer.len() + samples@.len(),
            final(self)@.buffer == (old(self)@.buffer + samples@).skip(
                final(self)@.origin - old(self)@.origin,
            ),
            old(self)@.tracking ==> final(self)@.tracking,
            found is None ==> final(self)@.tracking == old(self)@.tracking,
            found matches Some(bytes) ==> ({
                &&& bytes@.len() > 0
                &&& final(self)@.tracking
                &&& bytes@.len() * old(self)@.frame_len() <= final(self)@.position() - old(
                    self,
                )@.position()
            }),
            forall|score: spec_fn(Seq<S>) -> Candidate| #[trigger]
                scores_as(*analyze, score) ==> ({
                    let out = scan(
                        old(self)@.timing,
                        old(self)@.threshold,
                        score,
                        old(self)@.buffer + samples@,
                        old(self)@.cursor,
                        old(self)@.tracking,
                    );
                    &&& bytes_of(found) == out.bytes
                    &&& final(self)@.position() == old(self)@.origin + out.pos
                    &&& final(self)@.tracking == out.tracking
                }),
    {
        self.append(samples);
        let ghost appended = self@;
        proof {
            self.timing.lemma_bit_start_steps(0, 10);
            self.timing.lemma_search_window_positive(false);
            self.timing.lemma_search_window_positive(true);
        }
        let mut found: Vec<u8> = Vec::new();
        let mut next = self.pending_window();
        while next.is_some()
            invariant
                self.wf(),
                self@.buffer == appended.buffer,
                self@.origin == appended.origin,
                self@.timing == appended.timing,
                self@.threshold == appended.threshold,
                appended.cursor <= self@.cursor,
                appended.tracking ==> self@.tracking,
                found@.len() > 0 ==> self@.tracking,
                found@.len() == 0 ==> self@.tracking == appended.tracking,
                found@.len() * appended.frame_len() <= self@.cursor - appended.cursor,
                appended.frame_len() >= 20,
                self@.timing.spec_search_window(true) >= 1,
                self@.timing.spec_search_window(false) >= 1,
                forall|frame: &[S]| #[trigger] analyze.requires((frame,)),
                forall|score: spec_fn(Seq<S>) -> Candidate| #[trigger]
                    scores_as(*analyze, score) ==> ({
                        let rest = scan(
                            appended.timing,
                            appended.threshold,
                            score,
                            appended.buffer,
                            self@.cursor,
                            self@.tracking,
                        );
                        scan(
                            appended.timing,
                            appended.threshold,
                            score,
                            appended.buffer,
                            appended.cursor,
                            appended.tracking,
                        ) == ScanOutcome { bytes: found@ + rest.bytes, ..rest }
                    }),
                next is Some <==> self@.pending(),
                next matches Some(win) ==> ({
                    &&& win.start == self@.cursor
                    &&& win.offsets == self@.window()
                    &&& win.frame_len == self@.frame_len()
                }),
            decreases self@.buffer.len() - self@.cursor,
        {
            let win = match next {
                Some(win) => win,
                None => SearchWindow { start: 0, offsets: 0, frame_len: 0 },
            };
            let buffered = self.buffer.len();
            let mut candidates: Vec<Candidate> = Vec::new();
            let mut k: usize = 0;
            while k < win.offsets
                invariant
                    k <= win.offsets,
                    self.buffer@.len() == buffered,
                    candidates@.len() == k,
                    win.start == self@.cursor,
                    win.start + win.offsets + win.frame_len <= self.buffer@.len(),
                    forall|frame: &[S]| #[trigger] analyze.requires((frame,)),
                    forall|score: spec_fn(Seq<S>) -> Candidate| #[trigger]
                        scores_as(*analyze, score) ==> forall|j: int|
                            0 <= j < k ==> #[trigger] candidates@[j] == score(
                                self.buffer@.subrange(
                                    win.start + j,
                                    win.start + j + win.frame_len,
                                ),
                            ),
                decreases win.offsets - k,
            {
                let from = win.start + k;
                let frame = &self.buffer.as_slice()[from..from + win.frame_len];
                let candidate = analyze(frame);
                candidates.push(candidate);
                k = k + 1;
            }
            let ghost before = self@;
            let ghost before_found = found@;
            let ghost count = found@.len();
            let ghost frame_len = appended.frame_len();
            proof {
                lemma_best_index_is_first_max(candidates@);
            }
            match self.step(&candidates) {
                Some(byte) => {
                    found.push(byte);
                    assert((count + 1) * frame_len == count * frame_len + frame_len) by (
                    nonlinear_arith);
                },
                None => {},
            }
            assert forall|score: spec_fn(Seq<S>) -> Candidate| #[trigger]
                scores_as(*analyze, score) implies ({
                    let rest = scan(
                        appended.timing,
                        appended.threshold,
                        score,
                        appended.buffer,
                        self@.cursor,
                        self@.tracking,
                    );
                    scan(
                        appended.timing,
                        appended.threshold,
                        score,
                        appended.buffer,
                        appended.cursor,
                        appended.tracking,
                    ) == ScanOutcome { bytes: found@ + rest.bytes, ..rest }
                }) by {
                let c = frame_candidates(
                    appended.buffer,
                    before.cursor as int,
                    before.window(),
                    before.frame_len(),
                    score,
                );
                assert(candidates@ =~= c);
                let rest = scan(
                    appended.timing,
                    appended.threshold,
                    score,
                    appended.buffer,
                    self@.cursor,
                    self@.tracking,
                );
                if candidates@[best_index(candidates@)].score >= appended.threshold {
                    assert(before_found + (seq![candidates@[best_index(candidates@)].byte]
                        + rest.bytes) =~= found@ + rest.bytes);
                }
            }
            next = self.pending_window();
        }
        let ghost scanned = self@;
        self.commit();
        assert(appended.buffer.skip(scanned.cursor as int) =~= (old(self)@.buffer
            + samples@).skip(self@.origin - old(self)@.origin));
        if found.len() == 0 {
            None
        } else {
            Some(found)
        }
    }
}

} // verus!
