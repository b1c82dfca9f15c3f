//! Per-channel output bookkeeping: how many values a channel was offered and
//! which of them it accepts.
use vstd::prelude::*;
use crate::channels::{key_of, Channel};

verus! {

/// Counts the values offered to one channel's output and accepts the first
/// `target` of them; one past the target tells the caller to stop.
pub struct ChannelWriter {
    written: u64,
}

/// Verdict of a writer on one offered value.
#[derive(Clone, Copy, Debug, PartialEq, Eq, Structural)]
pub enum Accept {
    /// The value is to be written; `first` when it opens the channel's array.
    Write { first: bool },
    /// The target count is exceeded: the value is dropped and decoding should stop.
    Stop,
}

impl ChannelWriter {
    /// Number of values offered so far, accepted or not.
    pub closed spec fn offered(&self) -> nat {
        self.written as nat
    }

    /// A writer that has been offered nothing.
    pub fn new() -> (r: ChannelWriter)
        ensures
            r.offered() == 0,
    {
        ChannelWriter { written: 0 }
    }

    /// Number of values offered so far.
    pub fn written(&self) -> (r: u64)
        ensures
            r as nat == self.offered(),
    {
        self.written
    }

    /// Offers one value to a channel whose array holds at most `target` values.
    pub fn accept(&mut self, target: u32) -> (r: Accept)
        requires
            old(self).offered() < u64::MAX,
        ensures
            final(self).offered() == old(self).offered() + 1,
            r == if final(self).offered() > target as nat {
                Accept::Stop
            } else {
                Accept::Write { first: old(self).offered() == 0 }
            },
    {
        self.written = self.written + 1;
        if self.written > target as u64 {
            Accept::Stop
        } else {
            Accept::Write { first: self.written == 1 }
        }
    }
}

/// Bytes that open a channel's array in the output document: a new line,
/// two spaces of indentation, the quoted key, a colon and `[`.
pub open spec fn opening_of(c: Channel) -> Seq<u8> {
    seq![10u8, 32, 32, 34] + key_of(c) + seq![34u8, 58, 91]
}

/// A channel's array as first written: its opening, `width` spaces that the
/// values overwrite later, then `]` and the comma before the next field.
pub open spec fn reserved_array_of(c: Channel, width: nat) -> Seq<u8> {
    opening_of(c) + Seq::new(width, |i: int| 32u8) + seq![93u8, 44]
}

/// The bytes that reserve room for channel `c`'s array, and the offset in them
/// where the values begin.
pub fn reserve_array(c: Channel, width: usize) -> (r: (Vec<u8>, usize))
    requires
        width + 16 <= usize::MAX,
    ensures
        r.0@ == reserved_array_of(c, width as nat),
        r.1 == opening_of(c).len(),
{
    let mut out: Vec<u8> = vec![10u8, 32, 32, 34];
    let key = c.key();
    let mut i: usize = 0;
    while i < key.len()
        invariant
            i <= key@.len(),
            key@ == key_of(c),
            out@ == seq![10u8, 32, 32, 34] + key@.take(i as int),
        decreases key@.len() - i,
    {
        out.push(key[i]);
        i = i + 1;
        proof {
            assert(out@ =~= seq![10u8, 32, 32, 34] + key@.take(i as int));
        }
    }
    out.push(34u8);
    out.push(58u8);
    out.push(91u8);
    proof {
        assert(key@.take(key@.len() as int) =~= key@);
        assert(out@ =~= opening_of(c));
    }
    let offset = out.len();
    let mut j: usize = 0;
    while j < width
        invariant
            j <= width,
            offset as nat == opening_of(c).len(),
            out@ == opening_of(c) + Seq::new(j as nat, |x: int| 32u8),
        decreases width - j,
    {
        out.push(32u8);
        j = j + 1;
        proof {
            assert(out@ =~= opening_of(c) + Seq::new(j as nat, |x: int| 32u8));
        }
    }
    out.push(93u8);
    out.push(44u8);
    proof {
        assert(out@ =~= reserved_array_of(c, width as nat));
    }
    (out, offset)
}

} // verus!
