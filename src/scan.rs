//! The frame search as a function of the stream: what a finder finds when each
//! candidate frame's score depends on the frame's samples alone.
use crate::finder::{best_index, lemma_best_index_is_first_max, Candidate, FinderView};
use crate::timing::Timing;
use vstd::prelude::*;

verus! {

/// The candidates of the search at `pos`: the frame of `frame_len` samples at
/// each of the `window` offsets from `pos`, scored.
pub open spec fn frame_candidates<S>(
    stream: Seq<S>,
    pos: int,
    window: int,
    frame_len: int,
    score: spec_fn(Seq<S>) -> Candidate,
) -> Seq<Candidate> {
    Seq::new(window as nat, |k: int| score(stream.subrange(pos + k, pos + k + frame_len)))
}

/// Where a run of searches stops, in which mode, and the bytes it found.
pub struct ScanOutcome {
    pub pos: nat,
    pub tracking: bool,
    pub bytes: Seq<u8>,
}

/// Every search that `stream` allows from `pos`, in order: the best candidate
/// of each is accepted when it reaches `threshold`, moving the search to the
/// end of its frame and into tracking mode; otherwise the search moves past
/// the offsets it tried.
pub open spec fn scan<S>(
    timing: Timing,
    threshold: u32,
    score: spec_fn(Seq<S>) -> Candidate,
    stream: Seq<S>,
    pos: nat,
    tracking: bool,
) -> ScanOutcome
    decreases stream.len() - pos,
    via scan_decreases::<S>
{
    let window = timing.spec_search_window(tracking);
    let frame_len = timing.spec_samples_per_character();
    if timing.wf() && pos + window + frame_len <= stream.len() {
        let c = frame_candidates(stream, pos as int, window, frame_len, score);
        let best = best_index(c);
        if c[best].score >= threshold {
            let rest = scan(timing, threshold, score, stream, (pos + best + frame_len) as nat, true);
            ScanOutcome { bytes: seq![c[best].byte] + rest.bytes, ..rest }
        } else {
            scan(timing, threshold, score, stream, (pos + window) as nat, tracking)
        }
    } else {
        ScanOutcome { pos, tracking, bytes: seq![] }
    }
}

/// Each search moves forward: its window holds at least one offset, a frame
/// at least one sample, and the best candidate lies in the window.
proof fn lemma_scan_step(timing: Timing, c: Seq<Candidate>, tracking: bool)
    requires
        timing.wf(),
        c.len() == timing.spec_search_window(tracking),
    ensures
        timing.spec_search_window(tracking) >= 1,
        timing.spec_samples_per_character() >= 20,
        0 <= best_index(c) < c.len(),
{
    timing.lemma_search_window_positive(tracking);
    timing.lemma_bit_start_steps(0, 10);
    lemma_best_index_is_first_max(c);
}

#[via_fn]
proof fn scan_decreases<S>(
    timing: Timing,
    threshold: u32,
    score: spec_fn(Seq<S>) -> Candidate,
    stream: Seq<S>,
    pos: nat,
    tracking: bool,
) {
    let window = timing.spec_search_window(tracking);
    let frame_len = timing.spec_samples_per_character();
    if timing.wf() && pos + window + frame_len <= stream.len() {
        lemma_scan_step(
            timing,
            frame_candidates(stream, pos as int, window, frame_len, score),
            tracking,
        );
    }
}

/// Scanning a stream, then scanning it extended by `more` from where the first
/// scan stopped, finds the same bytes in the same order, and stops in the same
/// place, as scanning the extended stream at once: how the samples are split
/// into arrivals does not change what is found.
pub proof fn lemma_scan_chunking<S>(
    timing: Timing,
    threshold: u32,
    score: spec_fn(Seq<S>) -> Candidate,
    stream: Seq<S>,
    more: Seq<S>,
    pos: nat,
    tracking: bool,
)
    ensures
        ({
            let first = scan(timing, threshold, score, stream, pos, tracking);
            let second = scan(timing, threshold, score, stream + more, first.pos, first.tracking);
            scan(timing, threshold, score, stream + more, pos, tracking) == ScanOutcome {
                bytes: first.bytes + second.bytes,
                ..second
            }
        }),
    decreases stream.len() - pos,
{
    let whole = stream + more;
    let window = timing.spec_search_window(tracking);
    let frame_len = timing.spec_samples_per_character();
    if timing.wf() && pos + window + frame_len <= stream.len() {
        let c = frame_candidates(stream, pos as int, window, frame_len, score);
        lemma_scan_step(timing, c, tracking);
        let cw = frame_candidates(whole, pos as int, window, frame_len, score);
        assert forall|k: int| 0 <= k < window implies c[k] == cw[k] by {
            assert(stream.subrange(pos + k, pos + k + frame_len) =~= whole.subrange(
                pos + k,
                pos + k + frame_len,
            ));
        }
        assert(c =~= cw);
        let best = best_index(c);
        if c[best].score >= threshold {
            let next = (pos + best + frame_len) as nat;
            lemma_scan_chunking(timing, threshold, score, stream, more, next, true);
            let rest = scan(timing, threshold, score, stream, next, true);
            let second = scan(timing, threshold, score, whole, rest.pos, rest.tracking);
            assert(seq![c[best].byte] + (rest.bytes + second.bytes) =~= (seq![c[best].byte]
                + rest.bytes) + second.bytes);
        } else {
            lemma_scan_chunking(timing, threshold, score, stream, more, (pos + window) as nat, tracking);
        }
    } else {
        let second = scan(timing, threshold, score, whole, pos, tracking);
        assert(seq![] + second.bytes =~= second.bytes);
    }
}

/// Dropping the first `c` samples of the stream, none of them at or after
/// `pos`, moves every search `c` samples earlier and changes nothing else.
pub proof fn lemma_scan_shift<S>(
    timing: Timing,
    threshold: u32,
    score: spec_fn(Seq<S>) -> Candidate,
    stream: Seq<S>,
    c: nat,
    pos: nat,
    tracking: bool,
)
    requires
        c <= pos,
        c <= stream.len(),
    ensures
        ({
            let whole = scan(timing, threshold, score, stream, pos, tracking);
            scan(timing, threshold, score, stream.skip(c as int), (pos - c) as nat, tracking)
                == ScanOutcome { pos: (whole.pos - c) as nat, ..whole }
        }),
    decreases stream.len() - pos,
{
    let tail = stream.skip(c as int);
    let window = timing.spec_search_window(tracking);
    let frame_len = timing.spec_samples_per_character();
    let p = (pos - c) as nat;
    if timing.wf() && pos + window + frame_len <= stream.len() {
        let cs = frame_candidates(stream, pos as int, window, frame_len, score);
        lemma_scan_step(timing, cs, tracking);
        let ct = frame_candidates(tail, p as int, window, frame_len, score);
        assert forall|k: int| 0 <= k < window implies cs[k] == ct[k] by {
            assert(stream.subrange(pos + k, pos + k + frame_len) =~= tail.subrange(
                p + k,
                p + k + frame_len,
            ));
        }
        assert(cs =~= ct);
        let best = best_index(cs);
        if cs[best].score >= threshold {
            lemma_scan_shift(
                timing,
                threshold,
                score,
                stream,
                c,
                (pos + best + frame_len) as nat,
                true,
            );
            assert((p + best + frame_len) as nat == ((pos + best + frame_len) as nat - c) as nat);
        } else {
            lemma_scan_shift(timing, threshold, score, stream, c, (pos + window) as nat, tracking);
            assert((p + window) as nat == ((pos + window) as nat - c) as nat);
        }
    }
}

/// A scan that starts inside the stream stops inside it.
pub proof fn lemma_scan_stays_in_stream<S>(
    timing: Timing,
    threshold: u32,
    score: spec_fn(Seq<S>) -> Candidate,
    stream: Seq<S>,
    pos: nat,
    tracking: bool,
)
    requires
        pos <= stream.len(),
    ensures
        pos <= scan(timing, threshold, score, stream, pos, tracking).pos <= stream.len(),
    decreases stream.len() - pos,
{
    let window = timing.spec_search_window(tracking);
    let frame_len = timing.spec_samples_per_character();
    if timing.wf() && pos + window + frame_len <= stream.len() {
        let c = frame_candidates(stream, pos as int, window, frame_len, score);
        lemma_scan_step(timing, c, tracking);
        if c[best_index(c)].score >= threshold {
            lemma_scan_stays_in_stream(
                timing,
                threshold,
                score,
                stream,
                (pos + best_index(c) + frame_len) as nat,
                true,
            );
        } else {
            lemma_scan_stays_in_stream(
                timing,
                threshold,
                score,
                stream,
                (pos + window) as nat,
                tracking,
            );
        }
    }
}

/// Pushing `a` and then `b` into a finder finds what pushing both at once
/// would: `first` is any state that a push of `a` into `start` can leave (see
/// the contract of `FrameFinder::push`), and the bytes of the two pushes,
/// joined, are those of one scan over everything.
pub proof fn lemma_chunked_pushes<S>(
    score: spec_fn(Seq<S>) -> Candidate,
    start: FinderView<S>,
    a: Seq<S>,
    first: FinderView<S>,
    b: Seq<S>,
)
    requires
        start.wf(),
        first.cursor == 0,
        first.timing == start.timing,
        first.threshold == start.threshold,
        start.origin <= first.origin,
        first.buffer == (start.buffer + a).skip(first.origin - start.origin),
        first.position() == start.origin + scan(
            start.timing,
            start.threshold,
            score,
            start.buffer + a,
            start.cursor,
            start.tracking,
        ).pos,
        first.tracking == scan(
            start.timing,
            start.threshold,
            score,
            start.buffer + a,
            start.cursor,
            start.tracking,
        ).tracking,
    ensures
        scan(
            start.timing,
            start.threshold,
            score,
            start.buffer + a + b,
            start.cursor,
            start.tracking,
        ).bytes == scan(
            start.timing,
            start.threshold,
            score,
            start.buffer + a,
            start.cursor,
            start.tracking,
        ).bytes + scan(
            first.timing,
            first.threshold,
            score,
            first.buffer + b,
            first.cursor,
            first.tracking,
        ).bytes,
{
    let t = start.timing;
    let thr = start.threshold;
    let stream = start.buffer + a;
    let once = scan(t, thr, score, stream, start.cursor, start.tracking);
    lemma_scan_chunking(t, thr, score, stream, b, start.cursor, start.tracking);
    lemma_scan_stays_in_stream(t, thr, score, stream, start.cursor, start.tracking);
    lemma_scan_shift(t, thr, score, stream + b, once.pos, once.pos, once.tracking);
    assert((stream + b).skip(once.pos as int) =~= first.buffer + b);
    assert(start.buffer + a + b =~= stream + b);
}

/// `analyze` scores every frame as `score` scores the frame's samples.
pub open spec fn scores_as<S, F: Fn(&[S]) -> Candidate>(
    analyze: F,
    score: spec_fn(Seq<S>) -> Candidate,
) -> bool {
    forall|frame: &[S], c: Candidate| #[trigger] analyze.ensures((frame,), c) ==> c == score(frame@)
}

/// The bytes of an optional list, none for `None`.
pub open spec fn bytes_of(found: Option<Vec<u8>>) -> Seq<u8> {
    match found {
        Some(v) => v@,
        None => seq![],
    }
}

} // verus!
