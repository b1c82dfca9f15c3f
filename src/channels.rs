//! Logical output channels, per-channel storage, and the derivation of each
//! logical channel's value from the values of one frame position.
use vstd::prelude::*;

verus! {

/// Channels that can be computed and written.
#[derive(Clone, Copy, Debug, PartialEq, Eq, Structural)]
pub enum Channel {
    /// The first source channel.
    Left,
    /// The second source channel.
    Right,
    /// The mean of all source channels.
    Mid,
    /// Half the difference of the first two source channels.
    Side,
    /// The smallest value across the source channels.
    Min,
    /// The largest value across the source channels.
    Max,
}

/// The name of a channel in lower case, as bytes: the key of its output array.
pub open spec fn key_of(c: Channel) -> Seq<u8> {
    match c {
        Channel::Left => seq![108u8, 101, 102, 116],
        Channel::Right => seq![114u8, 105, 103, 104, 116],
        Channel::Mid => seq![109u8, 105, 100],
        Channel::Side => seq![115u8, 105, 100, 101],
        Channel::Min => seq![109u8, 105, 110],
        Channel::Max => seq![109u8, 97, 120],
    }
}

/// All channels, in output order.
pub open spec fn all_channels() -> Seq<Channel> {
    seq![Channel::Left, Channel::Right, Channel::Mid, Channel::Side, Channel::Min, Channel::Max]
}

fn bytes_equal(a: &[u8], b: &[u8]) -> (r: bool)
    ensures
        r == (a@ == b@),
{
    if a.len() != b.len() {
        return false;
    }
    let mut i: usize = 0;
    while i < a.len()
        invariant
            a@.len() == b@.len(),
            i <= a@.len(),
            forall|j: int| 0 <= j < i ==> a@[j] == b@[j],
        decreases a@.len() - i,
    {
        if a[i] != b[i] {
            return false;
        }
        i = i + 1;
    }
    proof {
        assert(a@ =~= b@);
    }
    true
}

impl Channel {
    /// The lower-case name of the channel, as bytes.
    pub fn key(&self) -> (r: Vec<u8>)
        ensures
            r@ == key_of(*self),
    {
        let r: Vec<u8> = match self {
            Channel::Left => vec![108u8, 101, 102, 116],
            Channel::Right => vec![114u8, 105, 103, 104, 116],
            Channel::Mid => vec![109u8, 105, 100],
            Channel::Side => vec![115u8, 105, 100, 101],
            Channel::Min => vec![109u8, 105, 110],
            Channel::Max => vec![109u8, 97, 120],
        };
        proof {
            assert(r@ =~= key_of(*self));
        }
        r
    }

    /// The channel whose lower-case name is `name`, if any.
    pub fn from_name(name: &[u8]) -> (r: Option<Channel>)
        ensures
            r matches Some(c) ==> key_of(c) == name@,
            r is None ==> forall|c: Channel| key_of(c) != name@,
    {
        let all = Channel::all();
        let mut i: usize = 0;
        while i < all.len()
            invariant
                all@ == all_channels(),
                i <= all@.len(),
                forall|j: int| 0 <= j < i ==> key_of(#[trigger] all@[j]) != name@,
            decreases all@.len() - i,
        {
            let k = all[i].key();
            if bytes_equal(k.as_slice(), name) {
                return Some(all[i]);
            }
            i = i + 1;
        }
        proof {
            assert forall|c: Channel| key_of(c) != name@ by {
                match c {
                    Channel::Left => assert(all@[0] == c),
                    Channel::Right => assert(all@[1] == c),
                    Channel::Mid => assert(all@[2] == c),
                    Channel::Side => assert(all@[3] == c),
                    Channel::Min => assert(all@[4] == c),
                    Channel::Max => assert(all@[5] == c),
                }
            }
        }
        None
    }

    /// Every channel, in output order.
    pub fn all() -> (r: Vec<Channel>)
        ensures
            r@ == all_channels(),
    {
        let r = vec![Channel::Left, Channel::Right, Channel::Mid, Channel::Side, Channel::Min, Channel::Max];
        proof {
            assert(r@ =~= all_channels());
        }
        r
    }
}

/// One optional value per logical channel.
pub struct Channels<T> {
    pub left: Option<T>,
    pub right: Option<T>,
    pub mid: Option<T>,
    pub side: Option<T>,
    pub min: Option<T>,
    pub max: Option<T>,
}

/// The enabled channels of `x` among `order`, keeping that order.
pub open spec fn enabled_among<T>(x: Channels<T>, order: Seq<Channel>) -> Seq<Channel> {
    order.filter(|c: Channel| x.slot(c) is Some)
}

impl<T> Channels<T> {
    /// The value held for channel `c`.
    pub open spec fn slot(&self, c: Channel) -> Option<T> {
        match c {
            Channel::Left => self.left,
            Channel::Right => self.right,
            Channel::Mid => self.mid,
            Channel::Side => self.side,
            Channel::Min => self.min,
            Channel::Max => self.max,
        }
    }

    /// No channel holds a value.
    pub fn new() -> (r: Channels<T>)
        ensures
            forall|c: Channel| r.slot(c) is None,
    {
        Channels { left: None, right: None, mid: None, side: None, min: None, max: None }
    }

    /// Stores `v` for channel `c`, replacing what it held.
    pub fn set(&mut self, c: Channel, v: T)
        ensures
            final(self).slot(c) == Some(v),
            forall|d: Channel| d != c ==> final(self).slot(d) == old(self).slot(d),
    {
        match c {
            Channel::Left => self.left = Some(v),
            Channel::Right => self.right = Some(v),
            Channel::Mid => self.mid = Some(v),
            Channel::Side => self.side = Some(v),
            Channel::Min => self.min = Some(v),
            Channel::Max => self.max = Some(v),
        }
    }

    /// Whether channel `c` holds a value.
    pub fn is_enabled(&self, c: Channel) -> (r: bool)
        ensures
            r == self.slot(c) is Some,
    {
        match c {
            Channel::Left => self.left.is_some(),
            Channel::Right => self.right.is_some(),
            Channel::Mid => self.mid.is_some(),
            Channel::Side => self.side.is_some(),
            Channel::Min => self.min.is_some(),
            Channel::Max => self.max.is_some(),
        }
    }

    /// The channels among `order` that hold a value, in that order.
    fn enabled_in(&self, order: Vec<Channel>) -> (r: Vec<Channel>)
        ensures
            r@ == enabled_among(*self, order@),
    {
        let mut r: Vec<Channel> = Vec::new();
        let mut i: usize = 0;
        while i < order.len()
            invariant
                i <= order@.len(),
                r@ == enabled_among(*self, order@.take(i as int)),
            decreases order@.len() - i,
        {
            proof {
                reveal(Seq::filter);
                assert(order@.take(i + 1).drop_last() =~= order@.take(i as int));
            }
            if self.is_enabled(order[i]) {
                r.push(order[i]);
            }
            i = i + 1;
        }
        proof {
            assert(order@.take(i as int) =~= order@);
        }
        r
    }

    /// The enabled scalar channels (left, right, min, max), in that order.
    pub fn iter_mut_scalar(&self) -> (r: Vec<Channel>)
        ensures
            r@ == enabled_among(*self, seq![Channel::Left, Channel::Right, Channel::Min, Channel::Max]),
    {
        let order = vec![Channel::Left, Channel::Right, Channel::Min, Channel::Max];
        proof {
            assert(order@ =~= seq![Channel::Left, Channel::Right, Channel::Min, Channel::Max]);
        }
        self.enabled_in(order)
    }

    /// The enabled composite channels (mid, side), in that order.
    pub fn iter_mut_composite(&self) -> (r: Vec<Channel>)
        ensures
            r@ == enabled_among(*self, seq![Channel::Mid, Channel::Side]),
    {
        let order = vec![Channel::Mid, Channel::Side];
        proof {
            assert(order@ =~= seq![Channel::Mid, Channel::Side]);
        }
        self.enabled_in(order)
    }

    /// Every enabled channel, in output order.
    pub fn iter_mut(&self) -> (r: Vec<Channel>)
        ensures
            r@ == enabled_among(*self, all_channels()),
    {
        self.enabled_in(Channel::all())
    }
}

} // verus!
