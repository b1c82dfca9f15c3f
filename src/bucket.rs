//! Fixed-capacity reducer that turns many raw samples into one peak level.
use vstd::prelude::*;
use crate::format::{level, level_of};

verus! {

/// Largest normalized level among the samples of `s`, 0 when `s` is empty.
pub open spec fn peak(s: Seq<i128>, full: nat) -> nat
    decreases s.len(),
{
    if s.len() == 0 {
        0
    } else {
        let rest = peak(s.drop_last(), full);
        let last = level_of(s.last() as int, full);
        if last > rest { last } else { rest }
    }
}

/// The peak of `s` is at least the level of each sample, and is the level of one of them.
pub proof fn lemma_peak_is_max(s: Seq<i128>, full: nat)
    ensures
        forall|i: int| 0 <= i < s.len() ==> level_of(#[trigger] s[i] as int, full) <= peak(s, full),
        s.len() > 0 ==> exists|i: int| 0 <= i < s.len() && level_of(s[i] as int, full) == peak(s, full),
        peak(s, full) <= full,
    decreases s.len(),
{
    if s.len() > 0 {
        let d = s.drop_last();
        lemma_peak_is_max(d, full);
        assert forall|i: int| 0 <= i < s.len() implies level_of(#[trigger] s[i] as int, full) <= peak(s, full) by {
            if i < s.len() - 1 {
                assert(s[i] == d[i]);
            }
        }
        if level_of(s.last() as int, full) <= peak(d, full) && d.len() > 0 {
            let j = choose|j: int| 0 <= j < d.len() && level_of(d[j] as int, full) == peak(d, full);
            assert(s[j] == d[j]);
        } else {
            assert(s[s.len() - 1] == s.last());
        }
    }
}

/// Peak reduction does not depend on the order of the samples: two
/// arrangements of the same samples reduce to the same level.
pub proof fn lemma_peak_order_independent(s1: Seq<i128>, s2: Seq<i128>, full: nat)
    requires
        s1.to_multiset() == s2.to_multiset(),
    ensures
        peak(s1, full) == peak(s2, full),
{
    broadcast use vstd::seq_lib::group_to_multiset_ensures;
    lemma_peak_is_max(s1, full);
    lemma_peak_is_max(s2, full);
    assert(s1.len() == s1.to_multiset().len());
    assert(s2.len() == s2.to_multiset().len());
    if s1.len() > 0 {
        let i = choose|i: int| 0 <= i < s1.len() && level_of(s1[i] as int, full) == peak(s1, full);
        assert(s1.contains(s1[i]));
        assert(s1.to_multiset().count(s1[i]) > 0);
        assert(s2.to_multiset().count(s1[i]) > 0);
        assert(s2.contains(s1[i]));
        let j = choose|j: int| 0 <= j < s2.len() && level_of(s2[j] as int, full) == peak(s2, full);
        assert(s2.contains(s2[j]));
        assert(s2.to_multiset().count(s2[j]) > 0);
        assert(s1.to_multiset().count(s2[j]) > 0);
        assert(s1.contains(s2[j]));
    }
}

/// Peak of a sequence that grew by one sample.
proof fn lemma_peak_push(s: Seq<i128>, x: i128, full: nat)
    ensures
        peak(s.push(x), full) == if level_of(x as int, full) > peak(s, full) {
            level_of(x as int, full)
        } else {
            peak(s, full)
        },
{
    assert(s.push(x).drop_last() =~= s);
}

/// Peaks of the first `k` consecutive buckets of `cap` samples each in `all`.
pub open spec fn bucket_peaks(all: Seq<i128>, cap: nat, full: nat, k: nat) -> Seq<nat> {
    Seq::new(k, |i: int| peak(all.subrange(i * cap, (i + 1) * cap), full))
}

/// Number of buckets that `n` samples fill and close, pushed one by one into
/// an empty buffer of capacity `cap`: a bucket closes when the sample after
/// it arrives, so the last bucket stays open.
pub open spec fn closed_buckets(n: nat, cap: nat) -> nat {
    if n == 0 { 0 } else { ((n - 1) as nat / cap) as nat }
}

pub(crate) proof fn lemma_closed_buckets_exact(n: nat, cap: nat, e: nat)
    requires
        cap > 0,
        e * cap < n <= e * cap + cap,
    ensures
        closed_buckets(n, cap) == e,
{
    assert((n - 1) as nat / cap == e) by (nonlinear_arith)
        requires
            cap > 0,
            e * cap < n <= e * cap + cap,
    {
        vstd::arithmetic::div_mod::lemma_fundamental_div_mod((n - 1) as int, cap as int);
        vstd::arithmetic::div_mod::lemma_div_pos_is_pos((n - 1) as int, cap as int);
        vstd::arithmetic::div_mod::lemma_mod_bound((n - 1) as int, cap as int);
        assert(((n - 1) as int / cap as int) * cap + (n - 1) % (cap as int) == n - 1);
        if (n - 1) as int / cap as int > e {
            assert(((n - 1) as int / cap as int) >= e + 1);
            assert(((n - 1) as int / cap as int) * cap >= (e + 1) * cap);
        }
        if ((n - 1) as int / cap as int) < e {
            assert(((n - 1) as int / cap as int) + 1 <= e);
            assert((((n - 1) as int / cap as int) + 1) * cap <= e * cap);
        }
    }
}

/// Accumulates raw samples until `capacity` of them are held; a full bucket
/// is reduced to the largest normalized level among its samples.
///
/// Storage is allocated once, at construction, and reused for every bucket.
#[derive(Clone)]
pub struct SampleBuffer {
    buffer: Vec<i128>,
    capacity: usize,
    full_scale: u128,
}

impl SampleBuffer {
    /// The samples held now, oldest first.
    pub closed spec fn contents(&self) -> Seq<i128> {
        self.buffer@
    }

    /// Number of samples that make one bucket.
    pub closed spec fn cap(&self) -> nat {
        self.capacity as nat
    }

    /// The raw value that stands for amplitude `1.0`.
    pub closed spec fn full(&self) -> nat {
        self.full_scale as nat
    }

    pub closed spec fn wf(&self) -> bool {
        &&& self.capacity > 0
        &&& self.buffer@.len() <= self.capacity
        &&& self.full_scale <= i128::MAX
    }

    /// An empty buffer that reduces buckets of `capacity` samples against full scale `full_scale`.
    pub fn with_capacity(capacity: usize, full_scale: u128) -> (r: SampleBuffer)
        requires
            capacity > 0,
            full_scale <= i128::MAX,
        ensures
            r.wf(),
            r.contents() == Seq::<i128>::empty(),
            r.cap() == capacity,
            r.full() == full_scale,
    {
        SampleBuffer { buffer: Vec::with_capacity(capacity), capacity, full_scale }
    }

    /// The raw value that stands for amplitude `1.0`.
    pub fn full_scale(&self) -> (r: u128)
        ensures
            r as nat == self.full(),
    {
        self.full_scale
    }

    /// Number of samples that make one bucket.
    pub fn capacity(&self) -> (r: usize)
        ensures
            r == self.cap(),
    {
        self.capacity
    }

    /// Number of samples held now.
    pub fn len(&self) -> (r: usize)
        ensures
            r == self.contents().len(),
    {
        self.buffer.len()
    }

    /// Whether no sample is held.
    pub fn is_empty(&self) -> (r: bool)
        ensures
            r == (self.contents().len() == 0),
    {
        self.buffer.len() == 0
    }

    /// Reduces what is held, without changing it.
    fn reduce(&self) -> (r: u128)
        requires
            self.wf(),
        ensures
            r as nat == peak(self.contents(), self.full()),
    {
        let mut best: u128 = 0;
        let mut i: usize = 0;
        while i < self.buffer.len()
            invariant
                self.wf(),
                i <= self.buffer@.len(),
                best as nat == peak(self.buffer@.take(i as int), self.full()),
            decreases self.buffer@.len() - i,
        {
            proof {
                lemma_peak_push(self.buffer@.take(i as int), self.buffer@[i as int], self.full());
                assert(self.buffer@.take(i as int).push(self.buffer@[i as int]) =~= self.buffer@.take(i + 1));
            }
            let l = level(self.buffer[i], self.full_scale);
            if l > best {
                best = l;
            }
            i = i + 1;
        }
        proof {
            assert(self.buffer@.take(i as int) =~= self.buffer@);
        }
        best
    }

    /// Adds one sample. When the buffer already holds a full bucket, that
    /// bucket is reduced and returned first, and the sample starts the next one.
    pub fn push(&mut self, sample: i128) -> (r: Option<u128>)
        requires
            old(self).wf(),
        ensures
            final(self).wf(),
            final(self).cap() == old(self).cap(),
            final(self).full() == old(self).full(),
            old(self).contents().len() == old(self).cap() ==> {
                &&& r == Some(peak(old(self).contents(), old(self).full()) as u128)
                &&& final(self).contents() == seq![sample]
            },
            old(self).contents().len() < old(self).cap() ==> {
                &&& r == None::<u128>
                &&& final(self).contents() == old(self).contents().push(sample)
            },
    {
        let mut out: Option<u128> = None;
        if self.buffer.len() == self.capacity {
            let p = self.reduce();
            self.buffer.clear();
            out = Some(p);
        }
        self.buffer.push(sample);
        proof {
            if old(self).contents().len() == old(self).cap() {
                assert(self.buffer@ =~= seq![sample]);
            }
        }
        out
    }

    /// Adds a batch of samples. Every bucket that the batch fills and closes
    /// is reduced, in order; the samples after the last closed bucket stay held.
    pub fn extend(&mut self, samples: &Vec<i128>) -> (r: Vec<u128>)
        requires
            old(self).wf(),
        ensures
            final(self).wf(),
            final(self).cap() == old(self).cap(),
            final(self).full() == old(self).full(),
            ({
                let all = old(self).contents() + samples@;
                let k = closed_buckets(all.len(), old(self).cap());
                &&& r@.map_values(|p: u128| p as nat) == bucket_peaks(all, old(self).cap(), old(self).full(), k)
                &&& final(self).contents() == all.subrange((k * old(self).cap()) as int, all.len() as int)
            }),
    {
        let ghost all = self.buffer@ + samples@;
        let ghost cap = self.capacity as int;
        let ghost full = self.full_scale as nat;
        let ghost old_len = self.buffer@.len();
        let mut out: Vec<u128> = Vec::new();
        let mut pos: usize = 0;
        let ghost mut e: int = 0;
        proof {
            assert(self.buffer@ =~= all.subrange(0, old_len as int));
        }
        while pos < samples.len()
            invariant
                self.wf(),
                self.capacity as nat == cap,
                self.full_scale as nat == full,
                cap > 0,
                e >= 0,
                all == old(self).contents() + samples@,
                old_len == old(self).contents().len(),
                old_len <= cap,
                pos <= samples@.len(),
                e * cap <= old_len + pos,
                self.buffer@ == all.subrange(e * cap, old_len + pos),
                e > 0 ==> e * cap < old_len + pos,
                e > 0 ==> old_len + pos <= e * cap + cap,
                e == 0 ==> old_len + pos <= cap,
                out@.len() == e,
                out@.map_values(|p: u128| p as nat) == bucket_peaks(all, cap as nat, full, e as nat),
            decreases samples@.len() - pos,
        {
            if self.buffer.len() == self.capacity {
                let ghost held = self.buffer@;
                let ghost before = out@;
                let p = self.reduce();
                self.buffer.clear();
                out.push(p);
                proof {
                    assert((e + 1) * cap == e * cap + cap) by (nonlinear_arith);
                    assert(old_len + pos == (e + 1) * cap);
                    assert(held == all.subrange(e * cap, (e + 1) * cap));
                    let ghost mapped = out@.map_values(|p: u128| p as nat);
                    let ghost want = bucket_peaks(all, cap as nat, full, (e + 1) as nat);
                    assert(mapped.len() == want.len());
                    assert forall|i: int| 0 <= i < want.len() implies mapped[i] == want[i] by {
                        if i < e {
                            assert(out@[i] == before[i]);
                            assert(before.map_values(|p: u128| p as nat)[i] == bucket_peaks(all, cap as nat, full, e as nat)[i]);
                        }
                    }
                    assert(out@.map_values(|p: u128| p as nat) =~= bucket_peaks(all, cap as nat, full, (e + 1) as nat));
                    e = e + 1;
                }
            }
            self.buffer.push(samples[pos]);
            pos = pos + 1;
            proof {
                assert(self.buffer@ =~= all.subrange(e * cap, old_len + pos));
            }
        }
        proof {
            assert(all.len() == old_len + pos);
            if all.len() == 0 {
                assert(e == 0);
            } else if e == 0 {
                assert(closed_buckets(all.len(), cap as nat) == 0) by (nonlinear_arith)
                    requires
                        0 < all.len() <= cap,
                {
                    vstd::arithmetic::div_mod::lemma_div_is_ordered_by_denominator((all.len() - 1) as int, 1, cap as int);
                }
            } else {
                lemma_closed_buckets_exact(all.len(), cap as nat, e as nat);
            }
            assert(self.buffer@ =~= all.subrange(e * cap, all.len() as int));
        }
        out
    }

    /// Reduces and empties whatever is held; nothing comes out of an empty buffer.
    pub fn flush(&mut self) -> (r: Option<u128>)
        requires
            old(self).wf(),
        ensures
            final(self).wf(),
            final(self).cap() == old(self).cap(),
            final(self).full() == old(self).full(),
            final(self).contents() == Seq::<i128>::empty(),
            r == if old(self).contents().len() == 0 {
                None::<u128>
            } else {
                Some(peak(old(self).contents(), old(self).full()) as u128)
            },
    {
        if self.buffer.len() == 0 {
            return None;
        }
        let p = self.reduce();
        self.buffer.clear();
        proof {
            assert(self.buffer@ =~= Seq::<i128>::empty());
        }
        Some(p)
    }
}

} // verus!
