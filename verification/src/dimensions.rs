use vstd::arithmetic::power2::{lemma2_to64, lemma_pow2_pos, lemma_pow2_strictly_increases, lemma_pow2_unfold, pow2};
use vstd::prelude::*;

verus! {

/// The largest exponent a side of the grid may have.
pub const MAX_POWER: u32 = 12;

/// The texel grid that every layer and the container share.
#[derive(Clone, Copy, Debug, PartialEq, Eq, Structural)]
pub struct LayerDimensions {
    pub width: u32,
    pub height: u32,
}

/// `n` is a power of two with an exponent of at most `MAX_POWER`.
pub open spec fn is_grid_side(n: u32) -> bool {
    exists|e: nat| e <= MAX_POWER && n == #[trigger] pow2(e)
}

/// A grid side lies between 1 and 4096.
pub proof fn lemma_grid_side_bounds(n: u32)
    requires
        is_grid_side(n),
    ensures
        1 <= n <= 4096,
{
    let e = choose|e: nat| e <= MAX_POWER && n == #[trigger] pow2(e);
    lemma_pow2_pos(e);
    lemma2_to64();
    if e < 12 {
        lemma_pow2_strictly_increases(e, 12);
    }
}

impl LayerDimensions {
    /// Both sides are powers of two between 2^0 and 2^12.
    pub open spec fn wf(&self) -> bool {
        is_grid_side(self.width) && is_grid_side(self.height)
    }

    /// The number of texels of the grid.
    pub open spec fn spec_texel_count(&self) -> nat {
        (self.width * self.height) as nat
    }

    /// A well-formed grid has between 1 and 2^24 texels.
    pub proof fn lemma_texel_count_bounds(&self)
        requires
            self.wf(),
        ensures
            1 <= self.width <= 4096,
            1 <= self.height <= 4096,
            1 <= self.spec_texel_count() <= 16777216,
    {
        lemma_grid_side_bounds(self.width);
        lemma_grid_side_bounds(self.height);
        assert(1 <= self.width * self.height <= 16777216) by (nonlinear_arith)
            requires
                1 <= self.width <= 4096,
                1 <= self.height <= 4096,
        ;
    }

    /// The grid of `2^width_power_of_two` by `2^height_power_of_two` texels.
    pub fn from_power_of_two(width_power_of_two: u32, height_power_of_two: u32) -> (dimensions:
        LayerDimensions)
        requires
            width_power_of_two <= MAX_POWER,
            height_power_of_two <= MAX_POWER,
        ensures
            dimensions.width == pow2(width_power_of_two as nat),
            dimensions.height == pow2(height_power_of_two as nat),
            dimensions.wf(),
    {
        LayerDimensions {
            width: power_of_two(width_power_of_two),
            height: power_of_two(height_power_of_two),
        }
    }

    /// `width * height`.
    pub fn get_texel_count(&self) -> (count: usize)
        requires
            self.wf(),
        ensures
            count == self.spec_texel_count(),
            count == self.width * self.height,
    {
        proof {
            self.lemma_texel_count_bounds();
        }
        let w: usize = self.width as usize;
        let h: usize = self.height as usize;
        w * h
    }
}

impl Default for LayerDimensions {
    /// 1024 by 512 texels, the exponents 10 and 9.
    fn default() -> (dimensions: LayerDimensions)
        ensures
            dimensions.width == 1024,
            dimensions.height == 512,
            dimensions.wf(),
    {
        proof {
            lemma2_to64();
            assert(1024 == pow2(10) && 10 <= MAX_POWER);
            assert(512 == pow2(9) && 9 <= MAX_POWER);
        }
        LayerDimensions { width: 1024, height: 512 }
    }
}

/// `2^exponent`, by repeated doubling.
fn power_of_two(exponent: u32) -> (value: u32)
    requires
        exponent <= MAX_POWER,
    ensures
        value == pow2(exponent as nat),
        is_grid_side(value),
{
    let mut value: u32 = 1;
    let mut done: u32 = 0;
    proof {
        lemma2_to64();
    }
    while done < exponent
        invariant
            done <= exponent <= MAX_POWER,
            value == pow2(done as nat),
            value <= 4096,
        decreases exponent - done,
    {
        proof {
            lemma2_to64();
            lemma_pow2_unfold((done + 1) as nat);
            if done + 1 < 12 {
                lemma_pow2_strictly_increases((done + 1) as nat, 12);
            }
        }
        value = value * 2;
        done = done + 1;
    }
    value
}

} // verus!
