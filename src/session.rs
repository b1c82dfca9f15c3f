//! A decode session: the accumulators and writers of every enabled channel,
//! fed frame position by frame position, flushed at the end of the stream.
use vstd::prelude::*;
use crate::bucket::{closed_buckets, lemma_closed_buckets_exact, lemma_peak_is_max, peak, SampleBuffer};
use crate::channels::{all_channels, Channel, Channels};
use crate::derive::{derive_value, derived, derived_full_scale, derived_scale, MAX_SOURCE_CHANNELS};
use crate::error::Error;
use crate::format::{format_supported, unit_of, Layout, SampleFormat};
use crate::writer::{Accept, ChannelWriter};

verus! {

/// The raw values of channel `c` over a sequence of frame positions.
pub open spec fn series(c: Channel, frames: Seq<Seq<i64>>) -> Seq<i128> {
    frames.map_values(|f: Seq<i64>| derived(c, f) as i128)
}

/// Number of buckets of `cap` samples that `n` samples make, the last one
/// possibly partial.
pub open spec fn total_buckets(n: nat, cap: nat) -> nat {
    ((n + cap - 1) as nat / cap) as nat
}

/// The value of bucket `b` of channel `c`: the peak level of its samples.
pub open spec fn bucket_value(c: Channel, frames: Seq<Seq<i64>>, cap: nat, full: nat, b: int) -> nat {
    let n = frames.len() as int;
    let end = if (b + 1) * cap < n { (b + 1) * cap } else { n };
    peak(series(c, frames).subrange(b * cap, end), full)
}

/// The values of the first `count` buckets of channel `c`.
pub open spec fn waveform_prefix(c: Channel, frames: Seq<Seq<i64>>, cap: nat, full: nat, count: nat) -> Seq<nat> {
    Seq::new(count, |b: int| bucket_value(c, frames, cap, full, b))
}

pub open spec fn min_nat(a: nat, b: nat) -> nat {
    if a < b { a } else { b }
}

/// The whole output array of channel `c`: one value per bucket, at most `target` of them.
pub open spec fn waveform(c: Channel, frames: Seq<Seq<i64>>, cap: nat, full: nat, target: nat) -> Seq<nat> {
    waveform_prefix(c, frames, cap, full, min_nat(target, total_buckets(frames.len(), cap)))
}

/// Whether a session can be set up for this format and number of source channels.
/// A source without channels needs no decoding and is always accepted.
pub open spec fn session_supported(format: SampleFormat, channels: nat) -> bool {
    channels == 0 || (format_supported(format) && channels <= MAX_SOURCE_CHANNELS)
}

/// The channels of `selection`, each once, in output order.
pub open spec fn selected(selection: Seq<Channel>) -> Seq<Channel> {
    all_channels().filter(|c: Channel| selection.contains(c))
}

/// The frame positions of a planar frame: position `j` holds sample `j` of every plane.
pub open spec fn planar_positions(planes: Seq<Vec<i64>>) -> Seq<Seq<i64>> {
    Seq::new(if planes.len() == 0 { 0 } else { planes[0]@.len() }, |j: int| Seq::new(planes.len(), |k: int| planes[k]@[j]))
}

/// The frame positions of a packed frame of `k` channels: position `j` holds
/// the `k` values that start at `j * k`; an incomplete tail is ignored.
pub open spec fn packed_positions(data: Seq<i64>, k: nat) -> Seq<Seq<i64>> {
    Seq::new(data.len() / k, |j: int| data.subrange(j * k, j * k + k))
}

proof fn lemma_series_push(c: Channel, frames: Seq<Seq<i64>>, v: Seq<i64>)
    ensures
        series(c, frames.push(v)) == series(c, frames).push(derived(c, v) as i128),
{
    assert(series(c, frames.push(v)) =~= series(c, frames).push(derived(c, v) as i128));
}

proof fn lemma_div_between(x: int, d: int, q: int)
    requires
        d > 0,
        q * d <= x < q * d + d,
    ensures
        x / d == q,
{
    vstd::arithmetic::div_mod::lemma_fundamental_div_mod(x, d);
    vstd::arithmetic::div_mod::lemma_mod_bound(x, d);
    let r = x / d;
    if r > q {
        vstd::arithmetic::mul::lemma_mul_inequality(q + 1, r, d);
        assert((q + 1) * d == q * d + d) by (nonlinear_arith);
        assert(d * r == r * d) by (nonlinear_arith);
    }
    if r < q {
        vstd::arithmetic::mul::lemma_mul_inequality(r + 1, q, d);
        assert((r + 1) * d == r * d + d) by (nonlinear_arith);
        assert(d * r == r * d) by (nonlinear_arith);
    }
}

proof fn lemma_prefix_in_range(c: Channel, frames: Seq<Seq<i64>>, cap: nat, full: nat, count: nat)
    ensures
        forall|b: int| 0 <= b < count ==> #[trigger] waveform_prefix(c, frames, cap, full, count)[b] <= full,
{
    assert forall|b: int| 0 <= b < count implies #[trigger] waveform_prefix(c, frames, cap, full, count)[b] <= full by {
        let n = frames.len() as int;
        let end = if (b + 1) * cap < n { (b + 1) * cap } else { n };
        lemma_peak_is_max(series(c, frames).subrange(b * cap, end), full);
    }
}

/// Buckets wholly inside `frames` keep their values when more frames arrive.
proof fn lemma_prefix_stable(c: Channel, frames: Seq<Seq<i64>>, v: Seq<i64>, cap: nat, full: nat, m: nat)
    requires
        cap > 0,
        m * cap <= frames.len(),
    ensures
        waveform_prefix(c, frames.push(v), cap, full, m) == waveform_prefix(c, frames, cap, full, m),
{
    lemma_series_push(c, frames, v);
    assert forall|b: int| 0 <= b < m implies bucket_value(c, frames.push(v), cap, full, b) == bucket_value(c, frames, cap, full, b) by {
        vstd::arithmetic::mul::lemma_mul_inequality(b + 1, m as int, cap as int);
        assert((b + 1) * cap == b * cap + cap) by (nonlinear_arith);
        assert(b * cap >= 0) by (nonlinear_arith)
            requires
                b >= 0,
                cap > 0,
        ;
        assert(series(c, frames.push(v)).subrange(b * cap, (b + 1) * cap) =~= series(c, frames).subrange(b * cap, (b + 1) * cap));
    }
    assert(waveform_prefix(c, frames.push(v), cap, full, m) =~= waveform_prefix(c, frames, cap, full, m));
}

/// The bucket that the frame after `frames` closes.
proof fn lemma_closing_bucket(c: Channel, frames: Seq<Seq<i64>>, v: Seq<i64>, cap: nat, full: nat, e: nat)
    requires
        cap > 0,
        frames.len() == e * cap + cap,
    ensures
        waveform_prefix(c, frames.push(v), cap, full, e + 1) == waveform_prefix(c, frames, cap, full, e).push(
            peak(series(c, frames).subrange((e * cap) as int, frames.len() as int), full),
        ),
{
    assert(e * cap <= frames.len());
    lemma_prefix_stable(c, frames, v, cap, full, e);
    lemma_series_push(c, frames, v);
    assert((e + 1) * cap == e * cap + cap) by (nonlinear_arith);
    assert(series(c, frames.push(v)).subrange((e * cap) as int, ((e + 1) * cap) as int) =~= series(c, frames).subrange((e * cap) as int, frames.len() as int));
    assert(waveform_prefix(c, frames.push(v), cap, full, e + 1) =~= waveform_prefix(c, frames, cap, full, e).push(
        peak(series(c, frames).subrange((e * cap) as int, frames.len() as int), full)));
}


/// A decoded frame, in either layout.
enum Frame<'a> {
    Planar(&'a Vec<Vec<i64>>),
    Packed(&'a Vec<i64>),
}

spec fn frame_ok(f: Frame, k: nat) -> bool {
    match f {
        Frame::Planar(planes) => planes@.len() == k && forall|c: int|
            0 <= c < planes@.len() ==> (#[trigger] planes@[c])@.len() == planes@[0]@.len(),
        Frame::Packed(_) => k >= 1,
    }
}

spec fn frame_positions_of(f: Frame, k: nat) -> Seq<Seq<i64>> {
    match f {
        Frame::Planar(planes) => planar_positions(planes@),
        Frame::Packed(data) => packed_positions(data@, k),
    }
}

impl<'a> Frame<'a> {
    /// Number of positions in the frame.
    fn positions(&self, k: usize) -> (r: usize)
        requires
            frame_ok(*self, k as nat),
            k >= 1,
        ensures
            r == frame_positions_of(*self, k as nat).len(),
    {
        match self {
            Frame::Planar(planes) => planes[0].len(),
            Frame::Packed(data) => data.len() / k,
        }
    }

    /// The values of the source channels at position `j`.
    fn position(&self, k: usize, j: usize) -> (r: Vec<i64>)
        requires
            frame_ok(*self, k as nat),
            k >= 1,
            j < frame_positions_of(*self, k as nat).len(),
        ensures
            r@ == frame_positions_of(*self, k as nat)[j as int],
            r@.len() == k,
    {
        let mut vals: Vec<i64> = Vec::new();
        let mut c: usize = 0;
        match self {
            Frame::Planar(planes) => {
                while c < k
                    invariant
                        c <= k,
                        frame_ok(*self, k as nat),
                        *self == Frame::Planar(planes),
                        j < planes@[0]@.len(),
                        vals@ == Seq::new(c as nat, |x: int| planes@[x]@[j as int]),
                    decreases k - c,
                {
                    vals.push(planes[c][j]);
                    c = c + 1;
                    proof {
                        assert(vals@ =~= Seq::new(c as nat, |x: int| planes@[x]@[j as int]));
                    }
                }
            },
            Frame::Packed(data) => {
                let total = data.len();
                proof {
                    assert(j * k + k <= data@.len()) by (nonlinear_arith)
                        requires
                            (j as int) < (data@.len() as int) / (k as int),
                            k >= 1,
                    {
                        vstd::arithmetic::div_mod::lemma_fundamental_div_mod(data@.len() as int, k as int);
                        vstd::arithmetic::div_mod::lemma_mod_bound(data@.len() as int, k as int);
                    }
                }
                assert(j * k + k <= total);
                let base: usize = j * k;
                while c < k
                    invariant
                        c <= k,
                        *self == Frame::Packed(data),
                        base == j * k,
                        base + k <= data@.len(),
                        data@.len() == total,
                        vals@ == data@.subrange(base as int, base + c),
                    decreases k - c,
                {
                    vals.push(data[base + c]);
                    c = c + 1;
                    proof {
                        assert(vals@ =~= data@.subrange(base as int, base + c));
                    }
                }
            },
        }
        vals
    }
}

/// The new values of one channel, returned by a call that feeds or flushes a session.
pub struct LaneOutput {
    /// The channel whose array receives the values.
    pub channel: Channel,
    /// Raw value that stands for amplitude `1.0`: each value means `level / full`.
    pub full: u128,
    /// How many values the channel's array held before these.
    pub first_index: u64,
    /// The new values, in order.
    pub levels: Vec<u128>,
}

/// `r` reports, for every enabled channel in order, the values that its
/// array gained from `before` to `after`.
pub open spec fn outputs_reported(before: Session, after: Session, r: Seq<LaneOutput>) -> bool {
    &&& r.len() == after.channels().len()
    &&& forall|i: int| 0 <= i < r.len() ==> {
        &&& (#[trigger] r[i]).channel == after.channels()[i]
        &&& r[i].full as nat == after.full(i)
        &&& r[i].first_index as nat == before.output(i).len()
        &&& 0 < r[i].full <= u64::MAX
        &&& forall|j: int| 0 <= j < r[i].levels@.len() ==> #[trigger] r[i].levels@[j] <= r[i].full
        &&& after.output(i) == before.output(i) + r[i].levels@.map_values(|p: u128| p as nat)
    }
}

/// Number of buckets whose value has been decided: the closed ones while
/// decoding, every bucket once the session is finished.
pub open spec fn buckets_done(s: Session) -> nat {
    if s.is_finished() {
        total_buckets(s.frames().len(), s.cap())
    } else {
        closed_buckets(s.frames().len(), s.cap())
    }
}

/// Every enabled channel's array holds the peak values of the buckets decided
/// so far, one per bucket in order, cut at the target count.
pub open spec fn outputs_follow_input(s: Session) -> bool {
    forall|i: int| 0 <= i < s.channels().len() ==> #[trigger] s.output(i) == waveform_prefix(
        s.channels()[i], s.frames(), s.cap(), s.full(i), min_nat(s.target(), buckets_done(s)))
}

struct Lane {
    channel: Channel,
    buffer: SampleBuffer,
    writer: ChannelWriter,
    pending: Vec<u128>,
    values: Ghost<Seq<nat>>,
}

spec fn pending_of(l: Lane) -> Seq<nat> {
    l.pending@.map_values(|p: u128| p as nat)
}

/// A lane in step with the session: its open bucket holds the samples after
/// the last closed bucket, and its values are the first accepted buckets.
spec fn lane_ok(l: Lane, frames: Seq<Seq<i64>>, closed: nat, finished: bool, cap: nat, target: nat, k: nat, unit: nat) -> bool {
    &&& l.buffer.wf()
    &&& l.buffer.cap() == cap
    &&& 0 < l.buffer.full() <= u64::MAX
    &&& k >= 1 ==> l.buffer.full() == derived_scale(l.channel, k, unit)
    &&& !finished ==> l.buffer.contents() == series(l.channel, frames).subrange((closed * cap) as int, frames.len() as int)
    &&& !finished ==> l.writer.offered() == closed
    &&& finished ==> l.buffer.contents().len() == 0
    &&& finished ==> l.writer.offered() == total_buckets(frames.len(), cap)
    &&& l.values@ == waveform_prefix(l.channel, frames, cap, l.buffer.full(), min_nat(target, l.writer.offered()))
}

/// Reduces decoded audio to per-channel waveforms. Every enabled channel has
/// its own accumulator and writer; all share one bucket capacity, so they
/// close buckets at the same frame positions.
pub struct Session {
    lanes: Vec<Lane>,
    channel_count: usize,
    capacity: usize,
    target: u32,
    unit: u64,
    fill: usize,
    closed: u64,
    stopped: bool,
    finished: bool,
    frames: Ghost<Seq<Seq<i64>>>,
    offered: Ghost<nat>,
}

impl Session {
    /// The enabled channels, in output order.
    pub closed spec fn channels(&self) -> Seq<Channel> {
        self.lanes@.map_values(|l: Lane| l.channel)
    }

    /// The values accepted so far by the `i`-th enabled channel.
    pub closed spec fn output(&self, i: int) -> Seq<nat> {
        self.lanes@[i].values@
    }

    /// The raw value that stands for amplitude `1.0` in the `i`-th enabled channel.
    pub closed spec fn full(&self, i: int) -> nat {
        self.lanes@[i].buffer.full()
    }

    /// The frame positions processed so far, each as the values of its source channels.
    pub closed spec fn frames(&self) -> Seq<Seq<i64>> {
        self.frames@
    }

    /// Number of frame positions handed to the session, processed or not.
    pub closed spec fn offered(&self) -> nat {
        self.offered@
    }

    /// Number of source samples per bucket.
    pub closed spec fn cap(&self) -> nat {
        self.capacity as nat
    }

    /// Most values a channel's array holds.
    pub closed spec fn target(&self) -> nat {
        self.target as nat
    }

    /// Number of source channels of each frame position.
    pub closed spec fn source_channels(&self) -> nat {
        self.channel_count as nat
    }

    /// The raw value that stands for amplitude `1.0` in the source format.
    pub closed spec fn unit(&self) -> nat {
        self.unit as nat
    }

    /// Some channel was offered more values than its target: the rest of the input is ignored.
    pub closed spec fn is_stopped(&self) -> bool {
        self.stopped
    }

    /// The open buckets have been flushed.
    pub closed spec fn is_finished(&self) -> bool {
        self.finished
    }

    /// Sets up a session for a source with `channel_count` channels of the given
    /// format, writing the channels of `selection` (each once, in output order),
    /// with buckets of `capacity` samples and at most `target` values per channel.
    /// A format or channel count without a defined reduction is refused before
    /// anything is produced; a source without channels needs no decoding.
    pub fn new(
        selection: &Vec<Channel>,
        format: SampleFormat,
        layout: Layout,
        channel_count: u16,
        capacity: usize,
        target: u32,
    ) -> (r: Result<Session, Error>)
        requires
            capacity > 0,
        ensures
            r is Ok <==> session_supported(format, channel_count as nat),
            r matches Err(e) ==> e == (Error::UnsupportedFormat { format, layout, channels: channel_count }),
            r matches Ok(s) ==> {
                &&& s.wf()
                &&& !s.is_finished()
                &&& !s.is_stopped()
                &&& s.channels() == selected(selection@)
                &&& s.frames().len() == 0
                &&& s.offered() == 0
                &&& s.cap() == capacity
                &&& s.target() == target
                &&& s.source_channels() == channel_count
                &&& forall|i: int| 0 <= i < s.channels().len() ==> s.output(i) == Seq::<nat>::empty()
                &&& outputs_follow_input(s)
                &&& channel_count >= 1 ==> forall|i: int| 0 <= i < s.channels().len() ==>
                    s.full(i) == derived_scale(s.channels()[i], channel_count as nat, unit_of(format))
            },
    {
        let supported = format.is_supported();
        if channel_count != 0 && (!supported || channel_count as usize > MAX_SOURCE_CHANNELS) {
            return Err(Error::UnsupportedFormat { format, layout, channels: channel_count });
        }
        let unit: u64 = if supported { format.unit() } else { 1 };
        let k = channel_count as usize;
        let mut flags: Channels<()> = Channels::new();
        let mut i: usize = 0;
        while i < selection.len()
            invariant
                i <= selection@.len(),
                forall|c: Channel| (#[trigger] flags.slot(c) is Some) == selection@.take(i as int).contains(c),
            decreases selection@.len() - i,
        {
            let ghost before = flags;
            flags.set(selection[i], ());
            i = i + 1;
            proof {
                assert forall|c: Channel| (#[trigger] flags.slot(c) is Some) == selection@.take(i as int).contains(c) by {
                    let t = selection@.take(i as int);
                    let t0 = selection@.take(i - 1);
                    assert(t =~= t0.push(selection@[i - 1]));
                    assert((before.slot(c) is Some) == t0.contains(c));
                    if t0.contains(c) {
                        let x = choose|x: int| 0 <= x < t0.len() && #[trigger] t0[x] == c;
                        assert(t[x] == c);
                    }
                    if c == selection@[i - 1] {
                        assert(t[i - 1] == c);
                    }
                    if t.contains(c) {
                        let x = choose|x: int| 0 <= x < t.len() && #[trigger] t[x] == c;
                        if x < i - 1 {
                            assert(t0[x] == c);
                        }
                    }
                }
            }
        }
        let keys = flags.iter_mut();
        proof {
            assert(selection@.take(selection@.len() as int) =~= selection@);
            let p = |c: Channel| flags.slot(c) is Some;
            let q = |c: Channel| selection@.contains(c);
            assert(p =~= q);
        }
        let mut lanes: Vec<Lane> = Vec::new();
        let mut j: usize = 0;
        while j < keys.len()
            invariant
                j <= keys@.len(),
                capacity > 0,
                lanes@.len() == j,
                k == channel_count as nat,
                supported ==> unit as nat == unit_of(format),
                0 < unit <= 0x1_0000_0000,
                k >= 1 ==> supported && k <= MAX_SOURCE_CHANNELS,
                forall|x: int| 0 <= x < j ==> (#[trigger] lanes@[x]).channel == keys@[x],
                forall|x: int| 0 <= x < j ==> (#[trigger] lanes@[x]).values@ == Seq::<nat>::empty(),
                forall|x: int| 0 <= x < j ==> (#[trigger] lanes@[x]).pending@.len() == 0,
                forall|x: int| 0 <= x < j ==> lane_ok(#[trigger] lanes@[x], Seq::empty(), 0, false,
                    capacity as nat, target as nat, k as nat, unit as nat),
            decreases keys@.len() - j,
        {
            let c = keys[j];
            let full: u128 = if k >= 1 { derived_full_scale(c, k, unit) } else { unit as u128 };
            proof {
                if k >= 1 && k != 1 && c == Channel::Mid {
                    assert(0 < k * unit <= 8 * 0x1_0000_0000) by (nonlinear_arith)
                        requires
                            1 <= k <= 8,
                            0 < unit <= 0x1_0000_0000,
                    ;
                }
            }
            let lane = Lane {
                channel: c,
                buffer: SampleBuffer::with_capacity(capacity, full),
                writer: ChannelWriter::new(),
                pending: Vec::new(),
                values: Ghost(Seq::empty()),
            };
            proof {
                assert(lane.buffer.contents() =~= series(c, Seq::empty()).subrange(0, 0));
                assert(lane.values@ =~= waveform_prefix(c, Seq::empty(), capacity as nat, full as nat, 0));
            }
            lanes.push(lane);
            j = j + 1;
        }
        let s = Session {
            lanes,
            channel_count: k,
            capacity,
            target,
            unit,
            fill: 0,
            closed: 0,
            stopped: false,
            finished: false,
            frames: Ghost(Seq::empty()),
            offered: Ghost(0),
        };
        proof {
            assert(s.channels() =~= selected(selection@));
            assert(closed_buckets(0, capacity as nat) == 0);
            lemma_outputs_are_bucket_peaks(s);
        }
        Ok(s)
    }

    /// Whether decoding should stop: a channel was offered more values than its target.
    pub fn stopped(&self) -> (r: bool)
        ensures
            r == self.is_stopped(),
    {
        self.stopped
    }

    /// The enabled channels, in output order.
    pub fn enabled_channels(&self) -> (r: Vec<Channel>)
        ensures
            r@ == self.channels(),
    {
        let mut r: Vec<Channel> = Vec::new();
        let mut i: usize = 0;
        while i < self.lanes.len()
            invariant
                i <= self.lanes@.len(),
                r@ == self.channels().take(i as int),
            decreases self.lanes@.len() - i,
        {
            r.push(self.lanes[i].channel);
            i = i + 1;
            proof {
                assert(r@ =~= self.channels().take(i as int));
            }
        }
        proof {
            assert(r@ =~= self.channels());
        }
        r
    }

    /// The session's parameters and channels are those of `o`.
    pub open spec fn same_setup(&self, o: Session) -> bool {
        &&& self.channels() == o.channels()
        &&& self.cap() == o.cap()
        &&& self.target() == o.target()
        &&& self.source_channels() == o.source_channels()
        &&& self.unit() == o.unit()
        &&& forall|i: int| 0 <= i < self.channels().len() ==> self.full(i) == o.full(i)
    }

    /// Every invariant but the emptiness of the lanes' pending values.
    closed spec fn inv(&self) -> bool {
        &&& self.capacity > 0
        &&& self.channel_count <= MAX_SOURCE_CHANNELS
        &&& self.closed as nat == closed_buckets(self.frames@.len(), self.capacity as nat)
        &&& self.closed as nat <= self.target as nat + 1
        &&& self.stopped == (self.closed as nat > self.target as nat)
        &&& self.fill as nat + self.closed as nat * self.capacity as nat == self.frames@.len()
        &&& self.fill <= self.capacity
        &&& self.frames@.len() > 0 ==> self.fill >= 1
        &&& self.offered@ >= self.frames@.len()
        &&& self.offered@ > self.frames@.len() ==> self.stopped
        &&& self.channel_count == 0 ==> self.frames@.len() == 0
        &&& forall|k: int| 0 <= k < self.frames@.len() ==> (#[trigger] self.frames@[k]).len() == self.channel_count
        &&& forall|i: int| 0 <= i < self.lanes@.len() ==> lane_ok(#[trigger] self.lanes@[i], self.frames@,
            self.closed as nat, self.finished, self.capacity as nat, self.target as nat,
            self.channel_count as nat, self.unit as nat)
    }

    /// The session's invariant.
    pub closed spec fn wf(&self) -> bool {
        &&& self.inv()
        &&& forall|i: int| 0 <= i < self.lanes@.len() ==> (#[trigger] self.lanes@[i]).pending@.len() == 0
    }

    /// Processes one frame position whose source channels hold `v`.
    fn feed_position(&mut self, v: &Vec<i64>)
        requires
            old(self).inv(),
            !old(self).finished,
            old(self).channel_count >= 1,
            v@.len() == old(self).channel_count,
        ensures
            final(self).inv(),
            !final(self).finished,
            final(self).lanes@.len() == old(self).lanes@.len(),
            final(self).channels() == old(self).channels(),
            final(self).same_setup(*old(self)),
            final(self).capacity == old(self).capacity,
            final(self).target == old(self).target,
            final(self).channel_count == old(self).channel_count,
            final(self).unit == old(self).unit,
            final(self).offered@ == old(self).offered@ + 1,
            old(self).stopped ==> final(self).frames@ == old(self).frames@,
            !old(self).stopped ==> final(self).frames@ == old(self).frames@.push(v@),
            old(self).stopped ==> final(self).stopped,
            forall|i: int| 0 <= i < final(self).lanes@.len() ==> {
                let o = old(self).lanes@[i];
                let n = #[trigger] final(self).lanes@[i];
                &&& o.values@.len() <= n.values@.len() <= o.values@.len() + 1
                &&& n.values@.take(o.values@.len() as int) == o.values@
                &&& pending_of(n) == pending_of(o) + n.values@.skip(o.values@.len() as int)
            },
    {
        if self.stopped {
            self.offered = Ghost(self.offered@ + 1);
            proof {
                assert forall|i: int| 0 <= i < self.lanes@.len() implies {
                    let o = old(self).lanes@[i];
                    let n = #[trigger] self.lanes@[i];
                    &&& o.values@.len() <= n.values@.len() <= o.values@.len() + 1
                    &&& n.values@.take(o.values@.len() as int) == o.values@
                    &&& pending_of(n) == pending_of(o) + n.values@.skip(o.values@.len() as int)
                } by {
                    let n = self.lanes@[i];
                    assert(n.values@.take(n.values@.len() as int) =~= n.values@);
                    assert(pending_of(n) + n.values@.skip(n.values@.len() as int) =~= pending_of(n));
                }
            }
            return;
        }
        let ghost frames0 = self.frames@;
        let ghost fed = frames0.len();
        let ghost cap = self.capacity as nat;
        let ghost closed0 = self.closed as nat;
        let ghost closes = self.fill == self.capacity;
        let ghost closed1: nat = if closes { closed0 + 1 } else { closed0 };
        let ghost frames1 = frames0.push(v@);
        proof {
            if closes {
                assert((closed0 + 1) * cap == closed0 * cap + cap) by (nonlinear_arith);
                lemma_closed_buckets_exact(fed + 1, cap, closed0 + 1);
            } else if fed == 0 {
                assert(closed_buckets(1, cap) == 0) by (nonlinear_arith)
                    requires
                        cap > 0,
                {
                }
            } else {
                lemma_closed_buckets_exact(fed + 1, cap, closed0);
            }
            assert(closed0 * cap <= fed);
            if closes {
                assert((closed0 + 1) * cap == closed0 * cap + cap) by (nonlinear_arith);
            }
        }
        self.frames = Ghost(frames1);
        self.offered = Ghost(self.offered@ + 1);
        let mut i: usize = 0;
        while i < self.lanes.len()
            invariant
                old(self).inv(),
                !old(self).stopped,
                !old(self).finished,
                frames0 == old(self).frames@,
                frames1 == frames0.push(v@),
                self.frames@ == frames1,
                self.offered@ == old(self).offered@ + 1,
                fed == frames0.len(),
                cap == self.capacity as nat,
                cap > 0,
                closed0 == self.closed as nat,
                closed0 * cap <= fed,
                closes == (self.fill == self.capacity),
                closed1 == if closes { closed0 + 1 } else { closed0 },
                closes ==> closed1 * cap == fed,
                v@.len() == self.channel_count,
                1 <= self.channel_count <= MAX_SOURCE_CHANNELS,
                self.lanes@.len() == old(self).lanes@.len(),
                self.capacity == old(self).capacity,
                self.target == old(self).target,
                self.channel_count == old(self).channel_count,
                self.unit == old(self).unit,
                self.fill == old(self).fill,
                self.closed == old(self).closed,
                self.stopped == old(self).stopped,
                self.finished == old(self).finished,
                i <= self.lanes@.len(),
                forall|j: int| i <= j < self.lanes@.len() ==> #[trigger] self.lanes@[j] == old(self).lanes@[j],
                forall|j: int| 0 <= j < i ==> self.lanes@[j].channel == old(self).lanes@[j].channel,
                forall|j: int| 0 <= j < i ==> lane_ok(#[trigger] self.lanes@[j], frames1, closed1, false, cap,
                    self.target as nat, self.channel_count as nat, self.unit as nat),
                forall|j: int| 0 <= j < i ==> {
                    let o = old(self).lanes@[j];
                    let n = #[trigger] self.lanes@[j];
                    &&& o.values@.len() <= n.values@.len() <= o.values@.len() + 1
                    &&& n.values@.take(o.values@.len() as int) == o.values@
                    &&& pending_of(n) == pending_of(o) + n.values@.skip(o.values@.len() as int)
                },
            decreases self.lanes@.len() - i,
        {
            let ghost o = self.lanes@[i as int];
            assert(lane_ok(o, frames0, closed0, false, cap, self.target as nat, self.channel_count as nat, self.unit as nat));
            assert(o.buffer.contents().len() == self.fill);
            let raw = derive_value(self.lanes[i].channel, v);
            let emitted = self.lanes[i].buffer.push(raw);
            proof {
                lemma_series_push(o.channel, frames0, v@);
                assert(raw == derived(o.channel, v@) as i128);
            }
            match emitted {
                Some(p) => {
                    let verdict = self.lanes[i].writer.accept(self.target);
                    match verdict {
                        Accept::Write { first: _ } => {
                            self.lanes[i].pending.push(p);
                            let ghost nv = self.lanes@[i as int].values@.push(p as nat);
                            self.lanes[i].values = Ghost(nv);
                        },
                        Accept::Stop => {},
                    }
                    proof {
                        let n = self.lanes@[i as int];
                        let full = o.buffer.full();
                        lemma_closing_bucket(o.channel, frames0, v@, cap, full, closed0);
                        if closed0 + 1 <= self.target {
                            assert(o.writer.offered() == closed0);
                            assert(o.values@ == waveform_prefix(o.channel, frames0, cap, full, closed0));
                            lemma_peak_is_max(o.buffer.contents(), full);
                            assert(p as nat == peak(series(o.channel, frames0).subrange((closed0 * cap) as int, frames0.len() as int), full));
                            assert(n.values@ == o.values@.push(p as nat));
                            assert(n.values@ =~= waveform_prefix(o.channel, frames1, cap, full, closed0 + 1));
                            assert(n.values@.take(o.values@.len() as int) =~= o.values@);
                            assert(pending_of(n) =~= pending_of(o) + n.values@.skip(o.values@.len() as int));
                        } else {
                            lemma_prefix_stable(o.channel, frames0, v@, cap, full, self.target as nat);
                            assert(n.values@.take(o.values@.len() as int) =~= o.values@);
                            assert(pending_of(n) =~= pending_of(o) + n.values@.skip(o.values@.len() as int));
                        }
                        assert(n.buffer.contents() =~= series(o.channel, frames1).subrange((closed1 * cap) as int, frames1.len() as int));
                    }
                },
                None => {
                    proof {
                        let n = self.lanes@[i as int];
                        let full = o.buffer.full();
                        vstd::arithmetic::mul::lemma_mul_inequality(min_nat(self.target as nat, closed0) as int, closed0 as int, cap as int);
                        lemma_prefix_stable(o.channel, frames0, v@, cap, full, min_nat(self.target as nat, closed0));
                        assert(n.values@.take(o.values@.len() as int) =~= o.values@);
                        assert(pending_of(n) =~= pending_of(o) + n.values@.skip(o.values@.len() as int));
                        assert(n.buffer.contents() =~= series(o.channel, frames1).subrange((closed1 * cap) as int, frames1.len() as int));
                    }
                },
            }
            i = i + 1;
        }
        if self.fill == self.capacity {
            self.closed = self.closed + 1;
            self.fill = 1;
        } else {
            self.fill = self.fill + 1;
        }
        self.stopped = self.closed > self.target as u64;
        proof {
            assert(self.channels() =~= old(self).channels());
            assert forall|i: int| 0 <= i < self.channels().len() implies self.full(i) == old(self).full(i) by {
                assert(lane_ok(old(self).lanes@[i], frames0, closed0, false, cap, self.target as nat,
                    self.channel_count as nat, self.unit as nat));
                assert(self.lanes@[i].channel == old(self).lanes@[i].channel);
            }
            if closes {
                assert((closed0 + 1) * cap == closed0 * cap + cap) by (nonlinear_arith);
            }
            assert forall|k: int| 0 <= k < self.frames@.len() implies (#[trigger] self.frames@[k]).len() == self.channel_count by {
                if k < fed {
                    assert(self.frames@[k] == frames0[k]);
                }
            }
        }
    }

    /// Hands out the values gathered since `marks` and empties the lanes' pending lists.
    fn collect(&mut self, marks: Ghost<Seq<nat>>) -> (r: Vec<LaneOutput>)
        requires
            old(self).inv(),
            marks@.len() == old(self).lanes@.len(),
            forall|i: int| 0 <= i < old(self).lanes@.len() ==> {
                let l = #[trigger] old(self).lanes@[i];
                &&& marks@[i] <= l.values@.len()
                &&& pending_of(l) == l.values@.skip(marks@[i] as int)
            },
        ensures
            final(self).wf(),
            final(self).same_setup(*old(self)),
            final(self).frames@ == old(self).frames@,
            final(self).offered@ == old(self).offered@,
            final(self).stopped == old(self).stopped,
            final(self).finished == old(self).finished,
            forall|i: int| 0 <= i < old(self).lanes@.len() ==> final(self).output(i) == old(self).output(i),
            r@.len() == final(self).lanes@.len(),
            forall|i: int| 0 <= i < r@.len() ==> {
                &&& (#[trigger] r@[i]).channel == final(self).channels()[i]
                &&& r@[i].full as nat == final(self).full(i)
                &&& r@[i].first_index as nat == marks@[i]
                &&& 0 < r@[i].full <= u64::MAX
                &&& forall|j: int| 0 <= j < r@[i].levels@.len() ==> #[trigger] r@[i].levels@[j] <= r@[i].full
                &&& final(self).output(i) == final(self).output(i).take(marks@[i] as int)
                    + r@[i].levels@.map_values(|p: u128| p as nat)
            },
    {
        let mut r: Vec<LaneOutput> = Vec::new();
        let mut i: usize = 0;
        while i < self.lanes.len()
            invariant
                old(self).inv(),
                marks@.len() == old(self).lanes@.len(),
                forall|i: int| 0 <= i < old(self).lanes@.len() ==> {
                    let l = #[trigger] old(self).lanes@[i];
                    &&& marks@[i] <= l.values@.len()
                    &&& pending_of(l) == l.values@.skip(marks@[i] as int)
                },
                self.lanes@.len() == old(self).lanes@.len(),
                self.capacity == old(self).capacity,
                self.target == old(self).target,
                self.channel_count == old(self).channel_count,
                self.unit == old(self).unit,
                self.fill == old(self).fill,
                self.closed == old(self).closed,
                self.stopped == old(self).stopped,
                self.finished == old(self).finished,
                self.frames == old(self).frames,
                self.offered == old(self).offered,
                i <= self.lanes@.len(),
                r@.len() == i,
                forall|j: int| i <= j < self.lanes@.len() ==> #[trigger] self.lanes@[j] == old(self).lanes@[j],
                forall|j: int| 0 <= j < i ==> {
                    let o = old(self).lanes@[j];
                    let n = #[trigger] self.lanes@[j];
                    &&& n.channel == o.channel
                    &&& n.buffer == o.buffer
                    &&& n.writer == o.writer
                    &&& n.values == o.values
                    &&& n.pending@.len() == 0
                },
                forall|j: int| 0 <= j < i ==> {
                    let o = old(self).lanes@[j];
                    &&& (#[trigger] r@[j]).channel == o.channel
                    &&& r@[j].full as nat == o.buffer.full()
                    &&& r@[j].first_index as nat == marks@[j]
                    &&& 0 < r@[j].full <= u64::MAX
                    &&& forall|x: int| 0 <= x < r@[j].levels@.len() ==> #[trigger] r@[j].levels@[x] <= r@[j].full
                    &&& r@[j].levels@.map_values(|p: u128| p as nat) == o.values@.skip(marks@[j] as int)
                },
            decreases self.lanes@.len() - i,
        {
            let ghost o = self.lanes@[i as int];
            assert(o == old(self).lanes@[i as int]);
            assert(lane_ok(o, self.frames@, self.closed as nat, self.finished, self.capacity as nat,
                self.target as nat, self.channel_count as nat, self.unit as nat));
            assert(pending_of(o) == o.values@.skip(marks@[i as int] as int));
            assert(pending_of(o).len() == o.pending@.len());
            assert(o.values@.len() == min_nat(self.target as nat, o.writer.offered()));
            let mut levels: Vec<u128> = Vec::new();
            std::mem::swap(&mut levels, &mut self.lanes[i].pending);
            let offered = self.lanes[i].writer.written();
            let accepted: u64 = if offered < self.target as u64 { offered } else { self.target as u64 };
            let first_index: u64 = accepted - levels.len() as u64;
            r.push(LaneOutput {
                channel: self.lanes[i].channel,
                full: self.lanes[i].buffer.full_scale(),
                first_index,
                levels,
            });
            proof {
                assert(pending_of(o) == o.values@.skip(marks@[i as int] as int));
                assert(pending_of(o).len() == o.pending@.len());
                lemma_prefix_in_range(o.channel, self.frames@, self.capacity as nat, o.buffer.full(),
                    min_nat(self.target as nat, o.writer.offered()));
                let lv = r@[i as int].levels@;
                assert forall|x: int| 0 <= x < lv.len() implies #[trigger] lv[x] <= r@[i as int].full by {
                    assert(pending_of(o)[x] == o.pending@[x] as nat);
                    assert(o.values@.skip(marks@[i as int] as int)[x] == o.values@[marks@[i as int] + x]);
                }
            }
            i = i + 1;
        }
        proof {
            assert(self.channels() =~= old(self).channels());
            assert forall|i: int| 0 <= i < r@.len() implies
                self.output(i) == self.output(i).take(marks@[i] as int) + r@[i].levels@.map_values(|p: u128| p as nat) by {
                let o = old(self).lanes@[i];
                assert(o.values@ =~= o.values@.take(marks@[i] as int) + o.values@.skip(marks@[i] as int));
            }
        }
        r
    }

    /// Processes every position of `frame`; once the session has stopped,
    /// positions are counted and otherwise ignored.
    fn feed_frame(&mut self, frame: Frame) -> (r: Vec<LaneOutput>)
        requires
            old(self).wf(),
            !old(self).is_finished(),
            old(self).source_channels() >= 1,
            frame_ok(frame, old(self).source_channels()),
        ensures
            final(self).wf(),
            !final(self).is_finished(),
            final(self).same_setup(*old(self)),
            final(self).offered() == old(self).offered() + frame_positions_of(frame, old(self).source_channels()).len(),
            ({
                let fed = (final(self).frames().len() - old(self).frames().len()) as int;
                &&& 0 <= fed <= frame_positions_of(frame, old(self).source_channels()).len()
                &&& final(self).frames() == old(self).frames() + frame_positions_of(frame, old(self).source_channels()).take(fed)
                &&& fed < frame_positions_of(frame, old(self).source_channels()).len() ==> final(self).is_stopped()
            }),
            old(self).is_stopped() ==> final(self).frames() == old(self).frames(),
            outputs_reported(*old(self), *final(self), r@),
            outputs_follow_input(*final(self)),
    {
        let n = frame.positions(self.channel_count);
        let ghost positions = frame_positions_of(frame, old(self).source_channels());
        let ghost marks = self.lanes@.map_values(|l: Lane| l.values@.len());
        let ghost frames0 = self.frames@;
        proof {
            assert forall|i: int| 0 <= i < self.lanes@.len() implies {
                let l = #[trigger] self.lanes@[i];
                &&& marks[i] <= l.values@.len()
                &&& l.values@.take(marks[i] as int) == old(self).lanes@[i].values@
                &&& pending_of(l) == l.values@.skip(marks[i] as int)
            } by {
                let l = self.lanes@[i];
                assert(marks[i] == l.values@.len());
                assert(l.values@.take(marks[i] as int) =~= l.values@);
                assert(pending_of(l) =~= l.values@.skip(marks[i] as int));
            }
            assert(frames0 =~= frames0 + positions.take(0));
        }
        let mut j: usize = 0;
        while j < n
            invariant
                old(self).wf(),
                !old(self).finished,
                self.inv(),
                !self.finished,
                self.same_setup(*old(self)),
                self.lanes@.len() == old(self).lanes@.len(),
                self.capacity == old(self).capacity,
                self.target == old(self).target,
                self.channel_count == old(self).channel_count,
                self.unit == old(self).unit,
                self.channel_count >= 1,
                frame_ok(frame, self.channel_count as nat),
                n == frame_positions_of(frame, old(self).source_channels()).len(),
                positions == frame_positions_of(frame, old(self).source_channels()),
                frames0 == old(self).frames@,
                marks == old(self).lanes@.map_values(|l: Lane| l.values@.len()),
                j <= n,
                self.offered@ == old(self).offered@ + j,
                frames0.len() <= self.frames@.len() <= frames0.len() + j,
                self.frames@ == frames0 + positions.take(self.frames@.len() - frames0.len()),
                self.frames@.len() < frames0.len() + j ==> self.stopped,
                old(self).stopped ==> self.frames@ == frames0,
                old(self).stopped ==> self.stopped,
                forall|i: int| 0 <= i < self.lanes@.len() ==> {
                    let l = #[trigger] self.lanes@[i];
                    &&& marks[i] <= l.values@.len()
                    &&& l.values@.take(marks[i] as int) == old(self).lanes@[i].values@
                    &&& pending_of(l) == l.values@.skip(marks[i] as int)
                },
            decreases n - j,
        {
            let vals = frame.position(self.channel_count, j);
            let ghost before = *self;
            let ghost fed_before = self.frames@.len() - frames0.len();
            self.feed_position(&vals);
            proof {
                if !before.stopped {
                    assert(fed_before == j) by {
                        if fed_before < j {
                            assert(before.stopped);
                        }
                    }
                    assert(self.frames@ =~= frames0 + positions.take(j + 1));
                }
                assert forall|i: int| 0 <= i < self.lanes@.len() implies {
                    let l = #[trigger] self.lanes@[i];
                    &&& marks[i] <= l.values@.len()
                    &&& l.values@.take(marks[i] as int) == old(self).lanes@[i].values@
                    &&& pending_of(l) == l.values@.skip(marks[i] as int)
                } by {
                    let l = self.lanes@[i];
                    let b = before.lanes@[i];
                    assert(marks[i] <= b.values@.len());
                    assert(b.values@.take(marks[i] as int) == old(self).lanes@[i].values@);
                    assert(l.values@.take(b.values@.len() as int) == b.values@);
                    assert forall|x: int| 0 <= x < marks[i] implies l.values@[x] == b.values@[x] by {
                        assert(l.values@.take(b.values@.len() as int)[x] == l.values@[x]);
                    }
                    assert(l.values@.take(marks[i] as int) =~= b.values@.take(marks[i] as int));
                    assert(l.values@.skip(marks[i] as int) =~= b.values@.skip(marks[i] as int) + l.values@.skip(b.values@.len() as int));
                }
                assert(self.channels() == before.channels());
            }
            j = j + 1;
        }
        let ghost pre = *self;
        let r = self.collect(Ghost(marks));
        proof {
            assert forall|i: int| 0 <= i < r@.len() implies
                self.output(i) == old(self).output(i) + r@[i].levels@.map_values(|p: u128| p as nat) by {
                let l = pre.lanes@[i];
                assert(l.values@.take(marks[i] as int) == old(self).lanes@[i].values@);
                assert(self.output(i) == pre.output(i));
                assert(r@[i].first_index as nat == marks[i]);
                assert(marks[i] == old(self).lanes@[i].values@.len());
            }
            assert(self.frames@ =~= frames0 + positions.take(self.frames@.len() - frames0.len()));
        }
        proof {
            lemma_outputs_are_bucket_peaks(*self);
        }
        r
    }


    /// Processes a planar frame: `planes[k]` holds the samples of source channel `k`.
    /// Once the session has stopped, positions are counted and otherwise ignored.
    pub fn feed_planar(&mut self, planes: &Vec<Vec<i64>>) -> (r: Vec<LaneOutput>)
        requires
            old(self).wf(),
            !old(self).is_finished(),
            old(self).source_channels() >= 1,
            planes@.len() == old(self).source_channels(),
            forall|k: int| 0 <= k < planes@.len() ==> (#[trigger] planes@[k])@.len() == planes@[0]@.len(),
        ensures
            final(self).wf(),
            !final(self).is_finished(),
            final(self).same_setup(*old(self)),
            final(self).offered() == old(self).offered() + planar_positions(planes@).len(),
            ({
                let fed = (final(self).frames().len() - old(self).frames().len()) as int;
                &&& 0 <= fed <= planar_positions(planes@).len()
                &&& final(self).frames() == old(self).frames() + planar_positions(planes@).take(fed)
                &&& fed < planar_positions(planes@).len() ==> final(self).is_stopped()
            }),
            old(self).is_stopped() ==> final(self).frames() == old(self).frames(),
            outputs_reported(*old(self), *final(self), r@),
            outputs_follow_input(*final(self)),
    {
        self.feed_frame(Frame::Planar(planes))
    }

    /// Processes a packed frame: position `j` holds its source channels' values at
    /// `data[j * k .. j * k + k]`, for `k` source channels; an incomplete tail is ignored.
    /// Once the session has stopped, positions are counted and otherwise ignored.
    pub fn feed_packed(&mut self, data: &Vec<i64>) -> (r: Vec<LaneOutput>)
        requires
            old(self).wf(),
            !old(self).is_finished(),
            old(self).source_channels() >= 1,
        ensures
            final(self).wf(),
            !final(self).is_finished(),
            final(self).same_setup(*old(self)),
            final(self).offered() == old(self).offered() + packed_positions(data@, old(self).source_channels()).len(),
            ({
                let fed = (final(self).frames().len() - old(self).frames().len()) as int;
                &&& 0 <= fed <= packed_positions(data@, old(self).source_channels()).len()
                &&& final(self).frames() == old(self).frames() + packed_positions(data@, old(self).source_channels()).take(fed)
                &&& fed < packed_positions(data@, old(self).source_channels()).len() ==> final(self).is_stopped()
            }),
            old(self).is_stopped() ==> final(self).frames() == old(self).frames(),
            outputs_reported(*old(self), *final(self), r@),
            outputs_follow_input(*final(self)),
    {
        self.feed_frame(Frame::Packed(data))
    }


    /// Flushes every channel's open bucket: end of the stream, or stop.
    pub fn finish(&mut self) -> (r: Vec<LaneOutput>)
        requires
            old(self).wf(),
            !old(self).is_finished(),
        ensures
            final(self).wf(),
            final(self).is_finished(),
            final(self).same_setup(*old(self)),
            final(self).frames() == old(self).frames(),
            final(self).offered() == old(self).offered(),
            final(self).is_stopped() == old(self).is_stopped(),
            outputs_reported(*old(self), *final(self), r@),
            outputs_follow_input(*final(self)),
            forall|i: int| 0 <= i < final(self).channels().len() ==> #[trigger] final(self).output(i) == waveform(
                final(self).channels()[i], final(self).frames(), final(self).cap(), final(self).full(i), final(self).target()),
    {
        let ghost marks = self.lanes@.map_values(|l: Lane| l.values@.len());
        let ghost frames = self.frames@;
        let ghost fed = frames.len();
        let ghost cap = self.capacity as nat;
        let ghost closed0 = self.closed as nat;
        proof {
            if fed > 0 {
                assert((closed0 + 1) * cap == closed0 * cap + cap) by (nonlinear_arith);
                assert((closed0 + 2) * cap == closed0 * cap + 2 * cap) by (nonlinear_arith);
                lemma_div_between(fed + cap - 1, cap as int, closed0 + 1 as int);
            } else {
                lemma_div_between(cap - 1, cap as int, 0 as int);
            }
        }
        let mut i: usize = 0;
        while i < self.lanes.len()
            invariant
                old(self).wf(),
                !old(self).finished,
                frames == old(self).frames@,
                fed == frames.len(),
                cap == self.capacity as nat,
                cap > 0,
                closed0 == self.closed as nat,
                fed > 0 ==> total_buckets(fed, cap) == closed0 + 1,
                fed == 0 ==> total_buckets(fed, cap) == 0,
                marks == old(self).lanes@.map_values(|l: Lane| l.values@.len()),
                self.lanes@.len() == old(self).lanes@.len(),
                self.capacity == old(self).capacity,
                self.target == old(self).target,
                self.channel_count == old(self).channel_count,
                self.unit == old(self).unit,
                self.fill == old(self).fill,
                self.closed == old(self).closed,
                self.stopped == old(self).stopped,
                self.finished == old(self).finished,
                self.frames == old(self).frames,
                self.offered == old(self).offered,
                i <= self.lanes@.len(),
                forall|j: int| i <= j < self.lanes@.len() ==> #[trigger] self.lanes@[j] == old(self).lanes@[j],
                forall|j: int| 0 <= j < i ==> self.lanes@[j].channel == old(self).lanes@[j].channel,
                forall|j: int| 0 <= j < i ==> self.lanes@[j].buffer.full() == old(self).lanes@[j].buffer.full(),
                forall|j: int| 0 <= j < i ==> lane_ok(#[trigger] self.lanes@[j], frames, closed0, true, cap,
                    self.target as nat, self.channel_count as nat, self.unit as nat),
                forall|j: int| 0 <= j < i ==> {
                    let n = #[trigger] self.lanes@[j];
                    &&& marks[j] <= n.values@.len()
                    &&& n.values@.take(marks[j] as int) == old(self).lanes@[j].values@
                    &&& pending_of(n) == n.values@.skip(marks[j] as int)
                },
            decreases self.lanes@.len() - i,
        {
            let ghost o = self.lanes@[i as int];
            assert(lane_ok(o, frames, closed0, false, cap, self.target as nat, self.channel_count as nat, self.unit as nat));
            assert(o.buffer.contents().len() == self.fill);
            assert(o.pending@.len() == 0);
            let flushed = self.lanes[i].buffer.flush();
            match flushed {
                Some(p) => {
                    let verdict = self.lanes[i].writer.accept(self.target);
                    match verdict {
                        Accept::Write { first: _ } => {
                            self.lanes[i].pending.push(p);
                            let ghost nv = self.lanes@[i as int].values@.push(p as nat);
                            self.lanes[i].values = Ghost(nv);
                        },
                        Accept::Stop => {},
                    }
                    proof {
                        let n = self.lanes@[i as int];
                        let full = o.buffer.full();
                        lemma_peak_is_max(o.buffer.contents(), full);
                        assert(fed <= closed0 * cap + cap);
                        assert((closed0 + 1) * cap == closed0 * cap + cap) by (nonlinear_arith);
                        assert(p as nat == bucket_value(o.channel, frames, cap, full, closed0 as int));
                        if closed0 + 1 <= self.target {
                            assert(n.values@ =~= waveform_prefix(o.channel, frames, cap, full, closed0 + 1));
                        }
                        assert(n.values@.take(marks[i as int] as int) =~= o.values@);
                        assert(pending_of(n) =~= n.values@.skip(marks[i as int] as int));
                    }
                },
                None => {
                    proof {
                        let n = self.lanes@[i as int];
                        assert(n.values@.take(marks[i as int] as int) =~= o.values@);
                        assert(pending_of(n) =~= n.values@.skip(marks[i as int] as int));
                    }
                },
            }
            i = i + 1;
        }
        self.finished = true;
        proof {
            assert forall|i: int| 0 <= i < self.channels().len() implies self.full(i) == old(self).full(i) by {
                assert(lane_ok(old(self).lanes@[i], frames, closed0, false, cap, self.target as nat,
                    self.channel_count as nat, self.unit as nat));
            }
            assert(self.channels() =~= old(self).channels());
        }
        let ghost pre = *self;
        let r = self.collect(Ghost(marks));
        proof {
            assert forall|i: int| 0 <= i < r@.len() implies
                self.output(i) == old(self).output(i) + r@[i].levels@.map_values(|p: u128| p as nat) by {
                let l = pre.lanes@[i];
                assert(l.values@.take(marks[i] as int) == old(self).lanes@[i].values@);
                assert(self.output(i) == pre.output(i));
            }
        }
        proof {
            lemma_outputs_are_bucket_peaks(*self);
        }
        r
    }

}

/// Every channel's array is, at any moment, the peak values of the buckets
/// decided so far, one per bucket in order, cut at the target count; once the
/// session is finished it is the channel's whole waveform.
pub proof fn lemma_outputs_are_bucket_peaks(s: Session)
    requires
        s.wf(),
    ensures
        forall|i: int| 0 <= i < s.channels().len() ==> #[trigger] s.output(i) == waveform_prefix(
            s.channels()[i], s.frames(), s.cap(), s.full(i), min_nat(s.target(), buckets_done(s))),
        s.is_finished() ==> forall|i: int| 0 <= i < s.channels().len() ==> #[trigger] s.output(i) == waveform(
            s.channels()[i], s.frames(), s.cap(), s.full(i), s.target()),
{
    assert forall|i: int| 0 <= i < s.channels().len() implies #[trigger] s.output(i) == waveform_prefix(
        s.channels()[i], s.frames(), s.cap(), s.full(i), min_nat(s.target(), buckets_done(s))) by {
        assert(lane_ok(s.lanes@[i], s.frames@, s.closed as nat, s.finished, s.capacity as nat, s.target as nat,
            s.channel_count as nat, s.unit as nat));
    }
}

/// Every channel's array holds at most `target` values, and exactly
/// `target` once the session is finished on an input of at least `target`
/// buckets; in general, as many as the input has buckets, up to `target`.
pub proof fn lemma_output_length(s: Session)
    requires
        s.wf(),
        s.is_finished(),
    ensures
        forall|i: int| 0 <= i < s.channels().len() ==> (#[trigger] s.output(i)).len() == min_nat(
            s.target(), total_buckets(s.offered(), s.cap())),
        forall|i: int| 0 <= i < s.channels().len() ==> (#[trigger] s.output(i)).len() <= s.target(),
        total_buckets(s.offered(), s.cap()) >= s.target() ==> forall|i: int| 0 <= i < s.channels().len()
            ==> (#[trigger] s.output(i)).len() == s.target(),
{
    let fed = s.frames@.len();
    let cap = s.capacity as nat;
    if s.offered@ > fed {
        assert(s.closed as nat == s.target as nat + 1);
        assert(fed > 0);
        vstd::arithmetic::div_mod::lemma_div_is_ordered((fed - 1) as int, (fed + cap - 1) as int, cap as int);
        vstd::arithmetic::div_mod::lemma_div_is_ordered((fed + cap - 1) as int, (s.offered@ + cap - 1) as int, cap as int);
    }
    assert forall|i: int| 0 <= i < s.channels().len() implies (#[trigger] s.output(i)).len() == min_nat(
        s.target(), total_buckets(s.offered(), s.cap())) by {
        assert(lane_ok(s.lanes@[i], s.frames@, s.closed as nat, s.finished, s.capacity as nat, s.target as nat,
            s.channel_count as nat, s.unit as nat));
    }
}

/// All enabled channels' arrays have the same length, at every moment.
pub proof fn lemma_outputs_same_length(s: Session)
    requires
        s.wf(),
    ensures
        forall|i: int, j: int| 0 <= i < s.channels().len() && 0 <= j < s.channels().len() ==>
            (#[trigger] s.output(i)).len() == (#[trigger] s.output(j)).len(),
{
    lemma_outputs_are_bucket_peaks(s);
}

/// Every value written is an amplitude in `[0, 1]`: a level between 0 and
/// the channel's full scale.
pub proof fn lemma_outputs_in_range(s: Session)
    requires
        s.wf(),
    ensures
        forall|i: int, b: int| 0 <= i < s.channels().len() && 0 <= b < s.output(i).len() ==>
            #[trigger] s.output(i)[b] <= s.full(i),
{
    lemma_outputs_are_bucket_peaks(s);
    assert forall|i: int, b: int| 0 <= i < s.channels().len() && 0 <= b < s.output(i).len() implies
        #[trigger] s.output(i)[b] <= s.full(i) by {
        let c = s.channels()[i];
        let n = s.frames().len() as int;
        let cap = s.cap();
        let end = if (b + 1) * cap < n { (b + 1) * cap } else { n };
        lemma_peak_is_max(series(c, s.frames()).subrange(b * cap, end), s.full(i));
    }
}

/// A finished session that was handed no frame position has empty arrays.
pub proof fn lemma_empty_input(s: Session)
    requires
        s.wf(),
        s.is_finished(),
        s.offered() == 0,
    ensures
        forall|i: int| 0 <= i < s.channels().len() ==> (#[trigger] s.output(i)).len() == 0,
{
    lemma_output_length(s);
    assert(total_buckets(0, s.cap()) == 0) by {
        lemma_div_between(s.cap() - 1, s.cap() as int, 0);
    }
}

} // verus!
