//! The colour model: a colour is a triple of 8-bit components, and a
//! [`Channel`] picks one of them.

use vstd::prelude::*;

verus! {

/// A colour: its red, green and blue components, in that order.
pub type Colour = [u8; 3];

/// One of the three components of a colour.
#[derive(Clone, Copy, Debug, PartialEq, Eq)]
pub enum Channel {
    Red,
    Green,
    Blue,
}

impl Channel {
    /// The position of this channel inside a colour.
    pub open spec fn index(self) -> int {
        match self {
            Channel::Red => 0,
            Channel::Green => 1,
            Channel::Blue => 2,
        }
    }
}

/// The component of `c` that `ch` selects.
pub open spec fn channel_value(c: Colour, ch: Channel) -> u8 {
    c[ch.index()]
}

/// The smaller of two components.
pub open spec fn lesser(a: u8, b: u8) -> u8 {
    if a <= b {
        a
    } else {
        b
    }
}

/// The larger of two components.
pub open spec fn greater(a: u8, b: u8) -> u8 {
    if a >= b {
        a
    } else {
        b
    }
}

/// The colour whose every component is the smaller of the two given ones.
pub open spec fn componentwise_min(a: Colour, b: Colour) -> Colour {
    [lesser(a[0], b[0]), lesser(a[1], b[1]), lesser(a[2], b[2])]
}

/// The colour whose every component is the larger of the two given ones.
pub open spec fn componentwise_max(a: Colour, b: Colour) -> Colour {
    [greater(a[0], b[0]), greater(a[1], b[1]), greater(a[2], b[2])]
}

/// The channel that dominates `c`: red when it is strictly above both green
/// and blue, otherwise green when it is strictly above blue, otherwise blue.
pub open spec fn dominant_channel(c: Colour) -> Channel {
    if c[0] > c[1] && c[0] > c[2] {
        Channel::Red
    } else if c[1] > c[2] {
        Channel::Green
    } else {
        Channel::Blue
    }
}

/// No component of a colour is above the one its dominating channel selects.
pub proof fn lemma_dominant_channel_is_largest(c: Colour, ch: Channel)
    ensures
        channel_value(c, ch) <= channel_value(c, dominant_channel(c)),
{
}

/// The operations of the colour model, as methods on [`Colour`].
pub trait ColourTrait: Sized {
    fn new(r: u8, g: u8, b: u8) -> Self;

    fn max_by_component(&self, other: &Self) -> Self;

    fn min_by_component(&self, other: &Self) -> Self;

    fn get_highest_channel(&self) -> Channel;

    fn get_channel_value(&self, channel: &Channel) -> u8;
}

impl ColourTrait for Colour {
    /// Builds a colour from its three components.
    fn new(r: u8, g: u8, b: u8) -> (colour: Self)
        ensures
            colour == [r, g, b],
    {
        [r, g, b]
    }

    /// The component-wise maximum of two colours; neither is changed.
    fn max_by_component(&self, other: &Self) -> (highest: Self)
        ensures
            highest == componentwise_max(*self, *other),
    {
        let r: u8 = if self[0] >= other[0] { self[0] } else { other[0] };
        let g: u8 = if self[1] >= other[1] { self[1] } else { other[1] };
        let b: u8 = if self[2] >= other[2] { self[2] } else { other[2] };
        [r, g, b]
    }

    /// The component-wise minimum of two colours; neither is changed.
    fn min_by_component(&self, other: &Self) -> (lowest: Self)
        ensures
            lowest == componentwise_min(*self, *other),
    {
        let r: u8 = if self[0] <= other[0] { self[0] } else { other[0] };
        let g: u8 = if self[1] <= other[1] { self[1] } else { other[1] };
        let b: u8 = if self[2] <= other[2] { self[2] } else { other[2] };
        [r, g, b]
    }

    /// The dominating channel, ties resolved towards blue, then green.
    fn get_highest_channel(&self) -> (channel: Channel)
        ensures
            channel == dominant_channel(*self),
    {
        if self[0] > self[1] && self[0] > self[2] {
            Channel::Red
        } else if self[1] > self[2] {
            Channel::Green
        } else {
            Channel::Blue
        }
    }

    /// The component that `channel` selects.
    fn get_channel_value(&self, channel: &Channel) -> (value: u8)
        ensures
            value == channel_value(*self, *channel),
    {
        match channel {
            Channel::Red => self[0],
            Channel::Green => self[1],
            Channel::Blue => self[2],
        }
    }
}

} // verus!
