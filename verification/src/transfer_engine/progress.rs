//! Progress and throughput statistics of sender and receiver.
//!
//! Live rates are taken over a sliding window of the last seconds rather than
//! over the whole session, so that a stall does not drag the shown rate down
//! for good.
use crate::transfer_engine::time;
use std::collections::VecDeque;
use vstd::prelude::*;

verus! {

/// Length of the sliding window in milliseconds.
pub const STATS_WINDOW_MS: u64 = 3000;

/// Most samples the window holds.
pub const STATS_MAX_SAMPLES: usize = 4096;

/// One sample: the payload bytes counted at a time.
#[derive(Debug, Clone, Copy, PartialEq, Eq, Structural)]
pub struct RateSample {
    pub t_ms: u64,
    pub bytes: u64,
}

/// Counts and recent samples of a session.
#[derive(Debug)]
pub struct Stats {
    /// Payload bytes so far.
    pub bytes: u64,
    /// Frames so far.
    pub frames: u64,
    /// Milliseconds since the session started, filled in on a snapshot.
    pub elapsed_ms: u64,
    window: VecDeque<RateSample>,
}

/// What a [`Stats`] stands for.
#[verifier::ext_equal]
pub struct StatsView {
    pub bytes: u64,
    pub frames: u64,
    pub elapsed_ms: u64,
    pub window: Seq<RateSample>,
}

impl View for Stats {
    type V = StatsView;

    closed spec fn view(&self) -> StatsView {
        StatsView {
            bytes: self.bytes,
            frames: self.frames,
            elapsed_ms: self.elapsed_ms,
            window: self.window@,
        }
    }
}

/// Bytes of all samples.
pub open spec fn sample_bytes(window: Seq<RateSample>) -> nat
    decreases window.len(),
{
    if window.len() == 0 {
        0
    } else {
        sample_bytes(window.drop_last()) + window.last().bytes as nat
    }
}

/// The earliest time that still counts at `t_ms`.
pub open spec fn cutoff(t_ms: u64) -> u64 {
    if t_ms < STATS_WINDOW_MS {
        0
    } else {
        (t_ms - STATS_WINDOW_MS) as u64
    }
}

/// The samples without those at the front that are older than `oldest`, of
/// which the last two stay in any case.
pub open spec fn without_old(window: Seq<RateSample>, oldest: u64) -> Seq<RateSample>
    decreases window.len(),
{
    if window.len() > 2 && window[0].t_ms < oldest {
        without_old(window.drop_first(), oldest)
    } else {
        window
    }
}

/// The latest samples, as many as the window holds.
pub open spec fn latest(window: Seq<RateSample>) -> Seq<RateSample> {
    if window.len() > STATS_MAX_SAMPLES {
        window.subrange(window.len() - STATS_MAX_SAMPLES, window.len() as int)
    } else {
        window
    }
}

/// The samples that are not older than `oldest`.
pub open spec fn recent(window: Seq<RateSample>, oldest: u64) -> Seq<RateSample> {
    window.filter(|s: RateSample| s.t_ms >= oldest)
}

/// Milliseconds between the first and the last of `samples`, in their order.
pub open spec fn span(samples: Seq<RateSample>) -> u64 {
    if samples.len() > 0 && samples.last().t_ms > samples[0].t_ms {
        (samples.last().t_ms - samples[0].t_ms) as u64
    } else {
        0
    }
}

impl StatsView {
    /// Statistics of a session that has not started.
    pub open spec fn empty() -> StatsView {
        StatsView { bytes: 0, frames: 0, elapsed_ms: 0, window: Seq::empty() }
    }

    /// The statistics with one more sample.
    pub open spec fn sampled(self, t_ms: u64, bytes: u64) -> StatsView {
        StatsView {
            window: latest(
                without_old(self.window.push(RateSample { t_ms, bytes }), cutoff(t_ms)),
            ),
            ..self
        }
    }

    /// The statistics after a frame at `t_ms`, `payload_bytes` of which count.
    pub open spec fn counted(self, t_ms: u64, payload_bytes: u64) -> StatsView {
        StatsView {
            bytes: (self.bytes + payload_bytes) as u64,
            frames: (self.frames + 1) as u64,
            ..self
        }.sampled(t_ms, payload_bytes)
    }

    /// The statistics after a frame was received at `t_ms`. Every frame occupies
    /// the channel, but only a unique one counts toward the bytes.
    pub open spec fn received(self, t_ms: u64, payload_bytes: u64, unique: bool) -> StatsView {
        self.counted(
            t_ms,
            if unique {
                payload_bytes
            } else {
                0
            },
        )
    }

    /// The window is bounded, and its samples were counted.
    pub open spec fn wf(self) -> bool {
        &&& self.window.len() <= STATS_MAX_SAMPLES
        &&& sample_bytes(self.window) <= self.bytes
    }
}

proof fn lemma_sample_bytes_drop_first(window: Seq<RateSample>)
    requires
        window.len() > 0,
    ensures
        sample_bytes(window) == window[0].bytes + sample_bytes(window.drop_first()),
    decreases window.len(),
{
    if window.len() == 1 {
        assert(window.drop_last() =~= Seq::empty());
        assert(window.drop_first() =~= Seq::empty());
    } else {
        lemma_sample_bytes_drop_first(window.drop_last());
        assert(window.drop_last().drop_first() =~= window.drop_first().drop_last());
    }
}

proof fn lemma_sample_bytes_suffix(window: Seq<RateSample>, n: int)
    requires
        0 <= n <= window.len(),
    ensures
        sample_bytes(window.subrange(n, window.len() as int)) <= sample_bytes(window),
    decreases n,
{
    if n == 0 {
        assert(window.subrange(0, window.len() as int) =~= window);
    } else {
        lemma_sample_bytes_drop_first(window);
        lemma_sample_bytes_suffix(window.drop_first(), n - 1);
        assert(window.drop_first().subrange(n - 1, window.len() - 1) =~= window.subrange(
            n,
            window.len() as int,
        ));
    }
}

proof fn lemma_without_old(window: Seq<RateSample>, oldest: u64)
    ensures
        without_old(window, oldest).len() <= window.len(),
        sample_bytes(without_old(window, oldest)) <= sample_bytes(window),
    decreases window.len(),
{
    if window.len() > 2 && window[0].t_ms < oldest {
        lemma_without_old(window.drop_first(), oldest);
        lemma_sample_bytes_drop_first(window);
    }
}

/// However many samples are taken, the window stays bounded and never holds
/// bytes that were not counted.
pub proof fn law_window_bounded(s: StatsView, t_ms: u64, payload_bytes: u64)
    requires
        s.wf(),
        s.bytes + payload_bytes <= u64::MAX,
    ensures
        s.counted(t_ms, payload_bytes).wf(),
        s.sampled(t_ms, payload_bytes).window.len() <= STATS_MAX_SAMPLES,
{
    let pushed = s.window.push(RateSample { t_ms, bytes: payload_bytes });
    assert(pushed.drop_last() =~= s.window);
    lemma_without_old(pushed, cutoff(t_ms));
    let kept = without_old(pushed, cutoff(t_ms));
    if kept.len() > STATS_MAX_SAMPLES {
        lemma_sample_bytes_suffix(kept, kept.len() - STATS_MAX_SAMPLES);
    }
}

/// How many samples from `n` on are dropped for their age.
proof fn lemma_aged(window: Seq<RateSample>, oldest: u64) -> (k: int)
    ensures
        0 <= k <= window.len(),
        without_old(window, oldest) == window.skip(k),
        forall|j: int| 0 <= j < k ==> (#[trigger] window[j]).t_ms < oldest,
        k > 0 ==> window.len() - k >= 2,
        window.len() - k > 2 ==> window[k].t_ms >= oldest,
    decreases window.len(),
{
    if window.len() > 2 && window[0].t_ms < oldest {
        let rest = window.drop_first();
        let k = lemma_aged(rest, oldest);
        assert(rest.skip(k) =~= window.skip(k + 1));
        assert forall|j: int| 0 <= j < k + 1 implies (#[trigger] window[j]).t_ms < oldest by {
            if j > 0 {
                assert(rest[j - 1] == window[j]);
            }
        }
        assert(rest.len() - k > 2 ==> rest[k] == window[k + 1]);
        k + 1
    } else {
        assert(window.skip(0) =~= window);
        0
    }
}

/// Every frame is counted, with the bytes that count, and sampled. The window
/// slides: samples leave it at the front, those older than three seconds as long
/// as two are left, and the oldest beyond 4096 samples.
pub proof fn law_frame_is_counted(s: StatsView, t_ms: u64, payload_bytes: u64) -> (aged: int)
    requires
        s.bytes + payload_bytes <= u64::MAX,
        s.frames < u64::MAX,
    ensures
        ({
            let after = s.counted(t_ms, payload_bytes);
            let all = s.window.push(RateSample { t_ms, bytes: payload_bytes });
            &&& after.bytes == s.bytes + payload_bytes
            &&& after.frames == s.frames + 1
            &&& after.elapsed_ms == s.elapsed_ms
            &&& 0 <= aged < all.len()
            &&& forall|j: int| 0 <= j < aged ==> (#[trigger] all[j]).t_ms + 3000 < t_ms
            &&& aged > 0 ==> all.len() - aged >= 2
            &&& all.len() - aged > 2 ==> all[aged].t_ms + 3000 >= t_ms
            &&& after.window == if all.len() - aged > 4096 {
                all.skip(all.len() - 4096)
            } else {
                all.skip(aged)
            }
        }),
{
    let all = s.window.push(RateSample { t_ms, bytes: payload_bytes });
    let k = lemma_aged(all, cutoff(t_ms));
    let kept = all.skip(k);
    if kept.len() > STATS_MAX_SAMPLES {
        assert(kept.subrange(kept.len() - STATS_MAX_SAMPLES, kept.len() as int) =~= all.skip(
            all.len() - STATS_MAX_SAMPLES,
        ));
    }
    k
}

/// A frame that brought nothing new counts as a frame without bytes.
pub proof fn law_repeat_brings_no_bytes(s: StatsView, t_ms: u64, payload_bytes: u64)
    ensures
        s.received(t_ms, payload_bytes, true) == s.counted(t_ms, payload_bytes),
        s.received(t_ms, payload_bytes, false) == s.counted(t_ms, 0),
{
}

/// A sample counts for three seconds.
pub proof fn law_samples_count_for_three_seconds(
    window: Seq<RateSample>,
    sample: RateSample,
    now: u64,
)
    ensures
        recent(Seq::<RateSample>::empty(), cutoff(now)) == Seq::<RateSample>::empty(),
        recent(window.push(sample), cutoff(now)) == if sample.t_ms + 3000 >= now {
            recent(window, cutoff(now)).push(sample)
        } else {
            recent(window, cutoff(now))
        },
{
    reveal(Seq::filter);
    assert(window.push(sample).drop_last() =~= window);
}

/// The bytes of samples add up.
pub proof fn law_sample_bytes_add_up(window: Seq<RateSample>, sample: RateSample)
    ensures
        sample_bytes(Seq::<RateSample>::empty()) == 0,
        sample_bytes(window.push(sample)) == sample_bytes(window) + sample.bytes,
{
    assert(window.push(sample).drop_last() =~= window);
}

impl Default for Stats {
    fn default() -> (stats: Self)
        ensures
            stats@ == StatsView::empty(),
    {
        let stats = Stats { bytes: 0, frames: 0, elapsed_ms: 0, window: VecDeque::new() };
        assert(stats@ =~= StatsView::empty());
        stats
    }
}

impl Clone for Stats {
    fn clone(&self) -> (stats: Self)
        ensures
            stats@ == self@,
    {
        let mut window: VecDeque<RateSample> = VecDeque::new();
        let mut i: usize = 0;
        while i < self.window.len()
            invariant
                i <= self.window@.len(),
                window@ == self.window@.take(i as int),
            decreases self.window@.len() - i,
        {
            window.push_back(self.window[i]);
            assert(window@ =~= self.window@.take(i + 1));
            i = i + 1;
        }
        assert(window@ =~= self.window@);
        Stats { bytes: self.bytes, frames: self.frames, elapsed_ms: self.elapsed_ms, window }
    }
}

impl Stats {
    /// Count a sent frame at the current time.
    pub fn record_sent(&mut self, payload_bytes: u64)
        requires
            old(self)@.bytes + payload_bytes <= u64::MAX,
            old(self)@.frames < u64::MAX,
        ensures
            exists|t_ms: u64|
                time::was_read(t_ms) && final(self)@ == #[trigger] old(self)@.counted(
                    t_ms,
                    payload_bytes,
                ),
    {
        let t_ms: u64 = time::now_ms();
        self.record_sent_at(t_ms, payload_bytes);
    }

    /// Count a sent frame at `t_ms`.
    pub fn record_sent_at(&mut self, t_ms: u64, payload_bytes: u64)
        requires
            old(self)@.bytes + payload_bytes <= u64::MAX,
            old(self)@.frames < u64::MAX,
        ensures
            final(self)@ == old(self)@.counted(t_ms, payload_bytes),
    {
        self.bytes = self.bytes + payload_bytes;
        self.frames = self.frames + 1;
        self.push_sample_at(t_ms, payload_bytes);
    }

    /// Count a received frame at the current time. Every frame occupies the
    /// channel, but only a unique one counts toward the bytes.
    pub fn record_received(&mut self, payload_bytes: u64, unique: bool)
        requires
            unique ==> old(self)@.bytes + payload_bytes <= u64::MAX,
            old(self)@.frames < u64::MAX,
        ensures
            exists|t_ms: u64|
                time::was_read(t_ms) && final(self)@ == #[trigger] old(self)@.received(
                    t_ms,
                    payload_bytes,
                    unique,
                ),
    {
        let t_ms: u64 = time::now_ms();
        self.record_received_at(t_ms, payload_bytes, unique);
    }

    /// Count a received frame at `t_ms`.
    pub fn record_received_at(&mut self, t_ms: u64, payload_bytes: u64, unique: bool)
        requires
            unique ==> old(self)@.bytes + payload_bytes <= u64::MAX,
            old(self)@.frames < u64::MAX,
        ensures
            final(self)@ == old(self)@.received(t_ms, payload_bytes, unique),
    {
        let counted: u64 = if unique {
            payload_bytes
        } else {
            0
        };
        self.bytes = self.bytes + counted;
        self.frames = self.frames + 1;
        self.push_sample_at(t_ms, counted);
    }

    /// Fill in the time since the session started.
    pub fn set_elapsed(&mut self, elapsed_ms: u64)
        ensures
            final(self)@ == (StatsView { elapsed_ms, ..old(self)@ }),
    {
        self.elapsed_ms = elapsed_ms;
    }

    /// Recompute derived fields before they are shown. There are none.
    pub fn finalize(&mut self)
        ensures
            final(self)@ == old(self)@,
    {
    }

    /// Add a sample, and drop those that fall out of the window.
    pub fn push_sample_at(&mut self, t_ms: u64, bytes: u64)
        ensures
            final(self)@ == old(self)@.sampled(t_ms, bytes),
    {
        self.window.push_back(RateSample { t_ms, bytes });
        let ghost pushed = self.window@;
        let oldest: u64 = t_ms.saturating_sub(STATS_WINDOW_MS);
        let ghost kept = without_old(pushed, oldest);
        while self.window.len() > 2 && self.window[0].t_ms < oldest
            invariant
                without_old(self.window@, oldest) == kept,
                self.bytes == old(self).bytes,
                self.frames == old(self).frames,
                self.elapsed_ms == old(self).elapsed_ms,
            decreases self.window@.len(),
        {
            let ghost before = self.window@;
            let _ = self.window.pop_front();
            assert(self.window@ =~= before.drop_first());
        }
        assert(self.window@ == kept);
        let ghost n = kept.len() as int;
        assert(kept.subrange(n - self.window@.len(), n) =~= self.window@);
        while self.window.len() > STATS_MAX_SAMPLES
            invariant
                n == kept.len(),
                self.window@.len() <= n,
                self.window@ == kept.subrange(n - self.window@.len(), n),
                n <= STATS_MAX_SAMPLES ==> self.window@.len() == n,
                n >= STATS_MAX_SAMPLES ==> self.window@.len() >= STATS_MAX_SAMPLES,
                self.bytes == old(self).bytes,
                self.frames == old(self).frames,
                self.elapsed_ms == old(self).elapsed_ms,
            decreases self.window@.len(),
        {
            let ghost before = self.window@;
            let _ = self.window.pop_front();
            assert(self.window@ =~= kept.subrange(n - self.window@.len(), n));
        }
        assert(self.window@ =~= latest(kept));
        assert(self@ =~= old(self)@.sampled(t_ms, bytes));
    }

    /// Payload bytes so far.
    pub fn total_bytes(&self) -> (n: u64)
        ensures
            n == self@.bytes,
    {
        self.bytes
    }

    /// Frames so far.
    pub fn total_frames(&self) -> (n: u64)
        ensures
            n == self@.frames,
    {
        self.frames
    }

    /// How many samples the window holds.
    pub fn window_len(&self) -> (n: usize)
        ensures
            n == self@.window.len(),
    {
        self.window.len()
    }

    /// Whether the bytes of the window that ends at `now` can be counted.
    pub fn rates_fit(&self, now: u64) -> (fit: bool)
        ensures
            fit == (sample_bytes(recent(self@.window, cutoff(now))) <= u64::MAX),
    {
        let oldest: u64 = now.saturating_sub(STATS_WINDOW_MS);
        let mut bytes: u64 = 0;
        let mut i: usize = 0;
        let ghost keep = |s: RateSample| s.t_ms >= oldest;
        assert(self.window@.take(0).filter(keep) =~= Seq::<RateSample>::empty()) by {
            reveal(Seq::filter);
        }
        while i < self.window.len()
            invariant
                i <= self.window@.len(),
                oldest == cutoff(now),
                keep == (|s: RateSample| s.t_ms >= oldest),
                bytes == sample_bytes(self.window@.take(i as int).filter(keep)),
            decreases self.window@.len() - i,
        {
            let s = self.window[i];
            proof {
                let next = self.window@.take(i + 1);
                assert(next.drop_last() =~= self.window@.take(i as int));
                assert(next.last() == s);
                reveal(Seq::filter);
                let live = self.window@.take(i as int).filter(keep);
                assert(live.push(s).drop_last() =~= live);
                lemma_kept_bytes_prefix(self.window@, keep, i + 1);
            }
            if s.t_ms >= oldest {
                if bytes > u64::MAX - s.bytes {
                    return false;
                }
                bytes = bytes + s.bytes;
            }
            i = i + 1;
        }
        assert(self.window@.take(i as int) =~= self.window@);
        true
    }

    /// Over the window that ends at `now`: the milliseconds between its first
    /// and last sample, its frames and its bytes.
    pub fn window_rates(&self, now: u64) -> (rates: (u64, u64, u64))
        requires
            sample_bytes(recent(self@.window, cutoff(now))) <= u64::MAX,
        ensures
            rates.0 == span(recent(self@.window, cutoff(now))),
            rates.1 == recent(self@.window, cutoff(now)).len(),
            rates.2 == sample_bytes(recent(self@.window, cutoff(now))),
    {
        let oldest: u64 = now.saturating_sub(STATS_WINDOW_MS);
        let mut first: Option<u64> = None;
        let mut last: Option<u64> = None;
        let mut frames: u64 = 0;
        let mut bytes: u64 = 0;
        let mut i: usize = 0;
        let ghost keep = |s: RateSample| s.t_ms >= oldest;
        assert(self.window@.take(0).filter(keep) =~= Seq::<RateSample>::empty()) by {
            reveal(Seq::filter);
        }
        while i < self.window.len()
            invariant
                i <= self.window@.len(),
                keep == (|s: RateSample| s.t_ms >= oldest),
                sample_bytes(self.window@.filter(keep)) <= u64::MAX,
                ({
                    let live = self.window@.take(i as int).filter(keep);
                    &&& frames == live.len() <= i
                    &&& bytes == sample_bytes(live)
                    &&& first == if live.len() > 0 {
                        Some(live[0].t_ms)
                    } else {
                        None::<u64>
                    }
                    &&& last == if live.len() > 0 {
                        Some(live.last().t_ms)
                    } else {
                        None::<u64>
                    }
                }),
            decreases self.window@.len() - i,
        {
            let s = self.window[i];
            proof {
                let next = self.window@.take(i + 1);
                assert(next.drop_last() =~= self.window@.take(i as int));
                assert(next.last() == s);
                lemma_kept_bytes_prefix(self.window@, keep, i + 1);
                reveal(Seq::filter);
                let live = self.window@.take(i as int).filter(keep);
                assert(live.push(s).drop_last() =~= live);
            }
            if s.t_ms >= oldest {
                if first.is_none() {
                    first = Some(s.t_ms);
                }
                last = Some(s.t_ms);
                frames = frames + 1;
                bytes = bytes + s.bytes;
            }
            i = i + 1;
        }
        assert(self.window@.take(i as int) =~= self.window@);
        let span_ms: u64 = match (first, last) {
            (Some(f), Some(l)) => if l > f {
                l - f
            } else {
                0
            },
            _ => 0,
        };
        (span_ms, frames, bytes)
    }
}

/// An amount over a time. A rate over no time at all counts as zero.
#[derive(Debug, Clone, Copy, PartialEq, Eq, Structural)]
pub struct Rate {
    pub amount: u64,
    pub per_ms: u64,
}

impl StatsView {
    /// Frames over time at `now`: over the window, or over the whole session
    /// while the window has too few samples to tell.
    pub open spec fn frame_rate(self, now: u64) -> Rate {
        let live = recent(self.window, cutoff(now));
        if live.len() < 2 || span(live) == 0 {
            Rate { amount: self.frames, per_ms: self.elapsed_ms }
        } else {
            Rate { amount: live.len() as u64, per_ms: span(live) }
        }
    }

    /// Payload bytes over time at `now`: over the window, or over the whole
    /// session while the window has none.
    pub open spec fn byte_rate(self, now: u64) -> Rate {
        let live = recent(self.window, cutoff(now));
        if sample_bytes(live) == 0 || span(live) == 0 {
            Rate { amount: self.bytes, per_ms: self.elapsed_ms }
        } else {
            Rate { amount: sample_bytes(live) as u64, per_ms: span(live) }
        }
    }
}

/// The rates are those of the samples that count, over the time between the first
/// and the last of them. Where that says nothing, they are those of the session.
pub proof fn law_rates(s: StatsView, now: u64)
    requires
        sample_bytes(recent(s.window, cutoff(now))) <= u64::MAX,
        s.window.len() <= u64::MAX,
    ensures
        ({
            let live = recent(s.window, cutoff(now));
            let moving = live.len() >= 2 && live[0].t_ms < live.last().t_ms;
            &&& moving ==> s.frame_rate(now).amount == live.len() && s.frame_rate(now).per_ms
                == live.last().t_ms - live[0].t_ms
            &&& !moving ==> s.frame_rate(now).amount == s.frames && s.frame_rate(now).per_ms
                == s.elapsed_ms
            &&& moving && sample_bytes(live) > 0 ==> s.byte_rate(now).amount == sample_bytes(live)
                && s.byte_rate(now).per_ms == live.last().t_ms - live[0].t_ms
            &&& !moving || sample_bytes(live) == 0 ==> s.byte_rate(now).amount == s.bytes
                && s.byte_rate(now).per_ms == s.elapsed_ms
        }),
{
    let keep = |r: RateSample| r.t_ms >= cutoff(now);
    s.window.lemma_filter_len(keep);
}

impl Stats {
    /// Frames over time at `now`.
    pub fn frame_rate_at(&self, now: u64) -> (rate: Rate)
        requires
            sample_bytes(recent(self@.window, cutoff(now))) <= u64::MAX,
        ensures
            rate == self@.frame_rate(now),
    {
        let (span_ms, frames, _) = self.window_rates(now);
        if frames < 2 || span_ms == 0 {
            Rate { amount: self.frames, per_ms: self.elapsed_ms }
        } else {
            Rate { amount: frames, per_ms: span_ms }
        }
    }

    /// Payload bytes over time at `now`.
    pub fn byte_rate_at(&self, now: u64) -> (rate: Rate)
        requires
            sample_bytes(recent(self@.window, cutoff(now))) <= u64::MAX,
        ensures
            rate == self@.byte_rate(now),
    {
        let (span_ms, _, bytes) = self.window_rates(now);
        if bytes == 0 || span_ms == 0 {
            Rate { amount: self.bytes, per_ms: self.elapsed_ms }
        } else {
            Rate { amount: bytes, per_ms: span_ms }
        }
    }
}

proof fn lemma_kept_bytes_prefix(
    window: Seq<RateSample>,
    keep: spec_fn(RateSample) -> bool,
    n: int,
)
    requires
        0 <= n <= window.len(),
    ensures
        sample_bytes(window.take(n).filter(keep)) <= sample_bytes(window.filter(keep)),
    decreases window.len(),
{
    if n == window.len() {
        assert(window.take(n) =~= window);
    } else {
        reveal(Seq::filter);
        lemma_kept_bytes_prefix(window.drop_last(), keep, n);
        assert(window.drop_last().take(n) =~= window.take(n));
        let kept = window.drop_last().filter(keep);
        assert(kept.push(window.last()).drop_last() =~= kept);
    }
}

/// Recovery progress of a receiver.
#[derive(Debug, Clone, Copy, PartialEq, Eq, Structural)]
pub struct Progress {
    /// Source symbols decoded so far.
    pub decoded_symbols: u32,
    /// Source symbols of the object.
    pub total_symbols: u32,
    /// Bytes per symbol, zero until it is known.
    pub symbol_size: u32,
    /// Distinct symbols received.
    pub received_symbols: u32,
    /// Frames received, duplicates included.
    pub frames_seen: u64,
    /// Frames whose symbol was already there.
    pub frames_duplicate: u64,
    /// Frames that were discarded.
    pub frames_corrupt: u64,
    /// Blocks that are reconstructed.
    pub decoded_blocks: u32,
    /// Blocks of the object.
    pub total_blocks: u32,
    /// Whether a descriptor confirmed the metadata.
    pub meta_confirmed: bool,
    /// Frames of another session since the last one of this session.
    pub session_mismatch_streak: u32,
}

impl Progress {
    /// No progress.
    pub open spec fn none() -> Progress {
        Progress {
            decoded_symbols: 0,
            total_symbols: 0,
            symbol_size: 0,
            received_symbols: 0,
            frames_seen: 0,
            frames_duplicate: 0,
            frames_corrupt: 0,
            decoded_blocks: 0,
            total_blocks: 0,
            meta_confirmed: false,
            session_mismatch_streak: 0,
        }
    }

    /// Whether every block is reconstructed.
    pub fn is_complete(&self) -> (complete: bool)
        ensures
            complete == (self.total_blocks > 0 && self.decoded_blocks == self.total_blocks),
    {
        self.total_blocks > 0 && self.decoded_blocks == self.total_blocks
    }
}

impl Default for Progress {
    fn default() -> (progress: Self)
        ensures
            progress == Progress::none(),
    {
        Progress {
            decoded_symbols: 0,
            total_symbols: 0,
            symbol_size: 0,
            received_symbols: 0,
            frames_seen: 0,
            frames_duplicate: 0,
            frames_corrupt: 0,
            decoded_blocks: 0,
            total_blocks: 0,
            meta_confirmed: false,
            session_mismatch_streak: 0,
        }
    }
}

/// No progress is nothing of everything.
pub proof fn law_no_progress()
    ensures
        ({
            let p = Progress::none();
            &&& p.decoded_symbols == 0 && p.total_symbols == 0 && p.received_symbols == 0
            &&& p.decoded_blocks == 0 && p.total_blocks == 0 && p.symbol_size == 0
            &&& p.frames_seen == 0 && p.frames_duplicate == 0 && p.frames_corrupt == 0
            &&& p.session_mismatch_streak == 0 && !p.meta_confirmed
        }),
{
}

} // verus!
