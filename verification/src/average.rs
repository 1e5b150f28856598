//! The average color of the opaque pixels.

use vstd::prelude::*;
use crate::stats::{PartialStats, Totals};

verus! {

/// The color that fully transparent pixels are given.
#[derive(Clone, Copy, Debug, PartialEq, Eq, Structural)]
pub struct AverageColor {
    pub r: u8,
    pub g: u8,
    pub b: u8,
}

/// Why an image cannot be repaired.
#[derive(Clone, Copy, Debug, PartialEq, Eq, Structural)]
pub enum FixError {
    /// The image has no opaque pixel, so there is no average color: every
    /// pixel is fully transparent, or the image has no pixels at all.
    NoOpaquePixels,
}

/// The mean of one channel: the sum divided by the count, rounded down.
/// A quotient that is too large for a channel, which no image gives, keeps
/// its low eight bits.
pub open spec fn channel_mean(sum: int, count: int) -> u8 {
    ((sum / count) % 256) as u8
}

/// The average color that `t` stands for, channel by channel.
pub open spec fn mean_color(t: Totals) -> AverageColor {
    AverageColor {
        r: channel_mean(t.r, t.count),
        g: channel_mean(t.g, t.count),
        b: channel_mean(t.b, t.count),
    }
}

/// Where no channel sum is more than 255 for each pixel counted, as with
/// the totals of any image, each channel of the average is the exact
/// quotient, rounded down.
pub proof fn lemma_mean_is_floor(t: Totals)
    requires
        t.count > 0,
        0 <= t.r <= 255 * t.count,
        0 <= t.g <= 255 * t.count,
        0 <= t.b <= 255 * t.count,
    ensures
        mean_color(t).r == t.r / t.count,
        mean_color(t).g == t.g / t.count,
        mean_color(t).b == t.b / t.count,
{
    lemma_quotient_fits(t.r, t.count);
    lemma_quotient_fits(t.g, t.count);
    lemma_quotient_fits(t.b, t.count);
}

proof fn lemma_quotient_fits(sum: int, count: int)
    requires
        count > 0,
        0 <= sum <= 255 * count,
    ensures
        0 <= sum / count <= 255,
{
    assert(0 <= sum / count <= 255) by (nonlinear_arith)
        requires
            count > 0,
            0 <= sum <= 255 * count,
    ;
}

/// Works out the average color from the merged stats of all workers.
///
/// Fails with `NoOpaquePixels` exactly if nothing was counted. Otherwise
/// each channel is its sum divided by the count, rounded down.
pub fn resolve_average(total: &PartialStats) -> (average: Result<AverageColor, FixError>)
    ensures
        average == if total.opaque_count == 0 {
            Err::<AverageColor, FixError>(FixError::NoOpaquePixels)
        } else {
            Ok::<AverageColor, FixError>(mean_color(total@))
        },
{
    if total.opaque_count == 0 {
        return Err(FixError::NoOpaquePixels);
    }
    let r: u64 = (total.sum_r / total.opaque_count) % 256;
    let g: u64 = (total.sum_g / total.opaque_count) % 256;
    let b: u64 = (total.sum_b / total.opaque_count) % 256;
    Ok(AverageColor { r: r as u8, g: g as u8, b: b as u8 })
}

} // verus!
