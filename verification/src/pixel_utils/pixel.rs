use vstd::prelude::*;

verus! {

/// Largest value of a colour channel.
pub const CHANNEL_MAX: u8 = 255;

/// Largest distance between two pixels: three channels, each differing by
/// the full channel range.
pub const MAX_COLOR_DIFF: u32 = 195075;

/// An RGB pixel with eight bits per channel.
#[derive(Clone, Copy, PartialEq, Eq, Debug, Structural)]
pub struct Pixel {
    pub red: u8,
    pub green: u8,
    pub blue: u8,
}

/// Square of the difference of two channel values.
pub open spec fn channel_diff_sq(a: u8, b: u8) -> int {
    (a as int - b as int) * (a as int - b as int)
}

/// Distance between two pixels: the sum over the three channels of the
/// squared difference.
pub open spec fn color_diff_spec(p: Pixel, q: Pixel) -> int {
    channel_diff_sq(p.red, q.red) + channel_diff_sq(p.green, q.green) + channel_diff_sq(
        p.blue,
        q.blue,
    )
}

/// Channel-wise sum of two pixels, each channel capped at the channel maximum.
pub open spec fn saturating_sum(p: Pixel, q: Pixel) -> Pixel {
    Pixel {
        red: if p.red + q.red > 255 { 255u8 } else { (p.red + q.red) as u8 },
        green: if p.green + q.green > 255 { 255u8 } else { (p.green + q.green) as u8 },
        blue: if p.blue + q.blue > 255 { 255u8 } else { (p.blue + q.blue) as u8 },
    }
}

/// A pixel with every channel complemented.
pub open spec fn inverted(p: Pixel) -> Pixel {
    Pixel {
        red: (255 - p.red) as u8,
        green: (255 - p.green) as u8,
        blue: (255 - p.blue) as u8,
    }
}

/// A squared channel difference lies between 0 and 255 squared.
pub proof fn lemma_channel_diff_sq_bounds(a: u8, b: u8)
    ensures
        0 <= channel_diff_sq(a, b) <= 65025,
        a == b ==> channel_diff_sq(a, b) == 0,
        channel_diff_sq(a, b) == channel_diff_sq(b, a),
{
    let d: int = a as int - b as int;
    assert(-255 <= d <= 255);
    assert(0 <= d * d <= 65025) by (nonlinear_arith)
        requires
            -255 <= d <= 255,
    ;
    assert(d == 0 ==> d * d == 0) by (nonlinear_arith);
    assert(d * d == (-d) * (-d)) by (nonlinear_arith);
}

/// The distance between two pixels is never negative, never above
/// `MAX_COLOR_DIFF`, symmetric, and zero between equal pixels.
pub proof fn lemma_color_diff_bounds(p: Pixel, q: Pixel)
    ensures
        0 <= color_diff_spec(p, q) <= MAX_COLOR_DIFF,
        p == q ==> color_diff_spec(p, q) == 0,
        color_diff_spec(p, q) == color_diff_spec(q, p),
{
    lemma_channel_diff_sq_bounds(p.red, q.red);
    lemma_channel_diff_sq_bounds(p.green, q.green);
    lemma_channel_diff_sq_bounds(p.blue, q.blue);
}

fn channel_diff_squared(a: u8, b: u8) -> (r: u32)
    ensures
        r == channel_diff_sq(a, b),
        r <= 65025,
{
    proof {
        lemma_channel_diff_sq_bounds(a, b);
    }
    let diff: i32 = a as i32 - b as i32;
    assert(-255 <= diff <= 255);
    assert(0 <= diff * diff <= 65025) by (nonlinear_arith)
        requires
            -255 <= diff <= 255,
    ;
    let squared: i32 = diff * diff;
    squared as u32
}

impl Pixel {
    /// Distance between two pixels, computed in a signed width that holds
    /// every channel difference and returned in one that holds the largest sum.
    pub fn color_diff(pixel1: Pixel, pixel2: Pixel) -> (r: u32)
        ensures
            r == color_diff_spec(pixel1, pixel2),
            r <= MAX_COLOR_DIFF,
    {
        let red: u32 = channel_diff_squared(pixel1.red, pixel2.red);
        let green: u32 = channel_diff_squared(pixel1.green, pixel2.green);
        let blue: u32 = channel_diff_squared(pixel1.blue, pixel2.blue);
        red + green + blue
    }

    /// Replaces every channel by its complement to the channel maximum.
    pub fn invert(&mut self)
        ensures
            *final(self) == inverted(*old(self)),
    {
        self.red = CHANNEL_MAX - self.red;
        self.green = CHANNEL_MAX - self.green;
        self.blue = CHANNEL_MAX - self.blue;
    }

    /// The black pixel: every channel zero.
    pub fn zero() -> (r: Pixel)
        ensures
            r == (Pixel { red: 0, green: 0, blue: 0 }),
    {
        Pixel { red: 0, green: 0, blue: 0 }
    }

    /// Whether every channel is zero.
    pub fn is_zero(&self) -> (r: bool)
        ensures
            r == (*self == Pixel { red: 0, green: 0, blue: 0 }),
    {
        self.red == 0 && self.green == 0 && self.blue == 0
    }

    /// Channel-wise sum of two pixels; a channel that would pass the channel
    /// maximum stays at it.
    pub fn add(self, other: Pixel) -> (r: Pixel)
        ensures
            r == saturating_sum(self, other),
    {
        Pixel {
            red: self.red.saturating_add(other.red),
            green: self.green.saturating_add(other.green),
            blue: self.blue.saturating_add(other.blue),
        }
    }
}

/// Inverting a pixel twice gives the pixel back.
pub proof fn lemma_invert_involution(p: Pixel)
    ensures
        inverted(inverted(p)) == p,
{
}

} // verus!
