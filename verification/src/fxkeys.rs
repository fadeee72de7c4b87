//! Which animatable property of an effect parameter a keyframe op drives.
//!
//! A `Float` parameter is one property, a `Point` two (x, y) and a `Colour`
//! one per channel (r, g, b, a); a `channel` argument picks among them, so one
//! op surface serves all three. Other parameter kinds are not animatable.

use vstd::prelude::*;

verus! {

/// The shape of an effect parameter's value, as the keyframe ops see it.
#[derive(Debug, Clone, Copy, PartialEq, Eq)]
pub enum ParamShape {
    /// One animatable property.
    Float,
    /// Two animatable properties, x then y.
    Point,
    /// One animatable property per colour channel.
    Colour { channels: usize },
    /// Bool, choice, seed, file and layer parameters.
    Fixed,
}

/// Why a keyframe op cannot address a parameter channel.
#[derive(Debug, Clone, Copy, PartialEq, Eq)]
pub enum ChannelError {
    /// A point has channels 0 (x) and 1 (y).
    PointChannel,
    /// A colour has channels 0..3 (r, g, b, a).
    ColourChannel,
    /// The parameter is not animatable.
    NotAnimatable,
}

/// The requested channel as an index: negative requests count as 0.
pub open spec fn channel_index(channel: i64) -> usize {
    (if channel < 0 {
        0
    } else {
        channel
    }) as usize
}

/// Which property of a parameter of shape `shape` the op on `channel` drives:
/// its position among the parameter's properties, or why none.
pub open spec fn param_slot_spec(shape: ParamShape, channel: i64) -> Result<usize, ChannelError> {
    let c = channel_index(channel);
    match shape {
        ParamShape::Float => Ok(0),
        ParamShape::Point => if c <= 1 {
            Ok(c)
        } else {
            Err(ChannelError::PointChannel)
        },
        ParamShape::Colour { channels } => if c < channels {
            Ok(c)
        } else {
            Err(ChannelError::ColourChannel)
        },
        ParamShape::Fixed => Err(ChannelError::NotAnimatable),
    }
}

/// Locate the animatable property a keyframe op on `channel` drives within a
/// parameter of shape `shape` (a `Float` ignores the channel).
pub fn param_slot(shape: ParamShape, channel: i64) -> (r: Result<usize, ChannelError>)
    ensures
        r == param_slot_spec(shape, channel),
        shape matches ParamShape::Colour { channels } && 0 <= channel < channels ==> r == Ok::<
            usize,
            ChannelError,
        >(channel as usize),
        shape is Point && 0 <= channel <= 1 ==> r == Ok::<usize, ChannelError>(channel as usize),
{
    let c: usize = if channel < 0 {
        0
    } else {
        channel as usize
    };
    match shape {
        ParamShape::Float => Ok(0),
        ParamShape::Point => if c <= 1 {
            Ok(c)
        } else {
            Err(ChannelError::PointChannel)
        },
        ParamShape::Colour { channels } => if c < channels {
            Ok(c)
        } else {
            Err(ChannelError::ColourChannel)
        },
        ParamShape::Fixed => Err(ChannelError::NotAnimatable),
    }
}

/// A keyframe op drives the property its channel names: channel `c` of a
/// colour (`0..channels`: r, g, b, a) drives property `c`, channel 0 or 1 of
/// a point drives x or y, and a float's single property is always property 0.
/// A channel past the parameter's properties (and within a `usize`) is refused, and a parameter that
/// is not animatable refuses every channel.
pub proof fn law_channel_drives_its_own_property(shape: ParamShape, channel: i64)
    ensures
        shape is Float ==> param_slot_spec(shape, channel) == Ok::<usize, ChannelError>(0),
        shape is Point && 0 <= channel <= 1 ==> param_slot_spec(shape, channel) == Ok::<usize, ChannelError>(
            channel as usize,
        ),
        shape is Point && 1 < channel <= usize::MAX ==> param_slot_spec(shape, channel) is Err,
        shape matches ParamShape::Colour { channels } && 0 <= channel < channels ==> param_slot_spec(
            shape,
            channel,
        ) == Ok::<usize, ChannelError>(channel as usize),
        shape matches ParamShape::Colour { channels } && channels <= channel <= usize::MAX ==> param_slot_spec(
            shape,
            channel,
        ) is Err,
        shape is Fixed ==> param_slot_spec(shape, channel) == Err::<usize, ChannelError>(
            ChannelError::NotAnimatable,
        ),
{
}

} // verus!
