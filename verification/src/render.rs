//! One pixel of the image: the mean of the colours of its samples, and the
//! bytes that show it.

use crate::camera::Camera;
use crate::fixed::{clamp, Fixed, SCALE};
use crate::hittable::{never_amplifies, Hittable};
use crate::tracer::{black, ray_color, ray_color_spec};
use crate::utils::RandomSource;
use crate::vec3::{in_unit_range, Color, Vec3};
use vstd::prelude::*;

verus! {

broadcast use Fixed::lemma_of;

/// Raw units of the brightest level that is shown, after the gamma curve:
/// 0.999.
pub const BRIGHTEST: i64 = 999_000_000;

/// The byte that shows a channel of a colour: the square root of the channel
/// (a gamma of two), capped at `BRIGHTEST`, in 256ths rounded down.
pub open spec fn quantize_spec(channel: Fixed) -> int {
    (channel.sqrt_spec().min_spec(Fixed::of(BRIGHTEST as int))@ * 256) / (SCALE as int)
}

/// A brighter channel never shows as a darker byte.
pub proof fn lemma_quantize_monotone(darker: Fixed, brighter: Fixed)
    requires
        darker@ <= brighter@,
    ensures
        0 <= quantize_spec(darker) <= quantize_spec(brighter) <= 255,
{
    darker.lemma_sqrt_monotone(brighter);
    darker.lemma_sqrt_range();
    brighter.lemma_sqrt_range();
}

/// The place between zero and one of the pixel `index` out of `count` along
/// one axis of the image, moved by `jitter` of a pixel:
/// `(index + jitter) / (count - 1)`.
pub open spec fn pixel_coordinate_spec(index: u32, jitter: Fixed, count: u32) -> Fixed {
    Fixed::from_int_spec(index as int).add_spec(jitter).div_spec(
        Fixed::from_int_spec(count as int - 1),
    )
}

/// The colour of one sample of the pixel in column `x` and row `y` of an
/// image of `width` by `height` pixels, and the source afterwards: two
/// numbers from the source place the sample within the pixel, the camera
/// takes a place on the lens, and the ray brings back its colour from
/// `world` within `depth` bounces.
pub open spec fn sample_spec<W: Hittable, R: RandomSource>(
    camera: &Camera,
    world: &W,
    x: u32,
    y: u32,
    width: u32,
    height: u32,
    depth: nat,
    rng: R,
) -> (Color, R) {
    let second = rng.rest();
    let (ray, after) = camera.ray_from(
        pixel_coordinate_spec(x, rng.peek(), width),
        pixel_coordinate_spec(y, second.peek(), height),
        second.rest(),
    );
    ray_color_spec(world, ray, depth, after)
}

/// The colours of `samples` samples of the pixel, in the order in which they
/// are taken, and the source afterwards.
pub open spec fn sample_colors<W: Hittable, R: RandomSource>(
    camera: &Camera,
    world: &W,
    x: u32,
    y: u32,
    width: u32,
    height: u32,
    samples: nat,
    depth: nat,
    rng: R,
) -> (Seq<Color>, R)
    decreases samples,
{
    if samples == 0 {
        (Seq::empty(), rng)
    } else {
        let (earlier, rest) = sample_colors(
            camera,
            world,
            x,
            y,
            width,
            height,
            (samples - 1) as nat,
            depth,
            rng,
        );
        let (color, after) = sample_spec(camera, world, x, y, width, height, depth, rest);
        (earlier.push(color), after)
    }
}

/// The sum of the colours, added one after the other from the first on.
pub open spec fn color_sum(colors: Seq<Color>) -> Color
    decreases colors.len(),
{
    if colors.len() == 0 {
        black()
    } else {
        color_sum(colors.drop_last()).add_spec(colors.last())
    }
}

/// The mean of the colours: their sum divided by their number; black for no
/// colours.
pub open spec fn color_mean(colors: Seq<Color>) -> Color {
    color_sum(colors).div_spec(Fixed::from_int_spec(colors.len() as int))
}

/// The sum of colours within the unit range has no channel below zero and
/// none above the number of the colours.
pub proof fn lemma_color_sum_range(colors: Seq<Color>)
    requires
        forall|i: int| 0 <= i < colors.len() ==> in_unit_range(#[trigger] colors[i]),
    ensures
        0 <= color_sum(colors).x@ <= clamp(colors.len() * SCALE),
        0 <= color_sum(colors).y@ <= clamp(colors.len() * SCALE),
        0 <= color_sum(colors).z@ <= clamp(colors.len() * SCALE),
    decreases colors.len(),
{
    if colors.len() > 0 {
        let init = colors.drop_last();
        assert forall|i: int| 0 <= i < init.len() implies in_unit_range(#[trigger] init[i]) by {
            assert(init[i] == colors[i]);
        }
        lemma_color_sum_range(init);
        assert(in_unit_range(colors.last()));
        assert(init.len() * SCALE + SCALE == colors.len() * SCALE) by (nonlinear_arith)
            requires
                init.len() + 1 == colors.len(),
        ;
    }
}

/// The mean of colours within the unit range lies within it.
pub proof fn lemma_color_mean_in_unit_range(colors: Seq<Color>)
    requires
        forall|i: int| 0 <= i < colors.len() ==> in_unit_range(#[trigger] colors[i]),
    ensures
        in_unit_range(color_mean(colors)),
{
    lemma_color_sum_range(colors);
    let sum = color_sum(colors);
    let count = Fixed::from_int_spec(colors.len() as int);
    if colors.len() > 0 {
        assert(colors.len() * SCALE > 0) by (nonlinear_arith)
            requires
                colors.len() > 0,
        ;
        sum.x.lemma_div_fraction(count);
        sum.y.lemma_div_fraction(count);
        sum.z.lemma_div_fraction(count);
        sum.x.lemma_div_nonneg(count);
        sum.y.lemma_div_nonneg(count);
        sum.z.lemma_div_nonneg(count);
    }
}

/// The place between zero and one of the pixel `index` out of `count` along
/// one axis of the image, moved by `jitter` of a pixel.
pub fn pixel_coordinate(index: u32, jitter: Fixed, count: u32) -> (r: Fixed)
    ensures
        r == pixel_coordinate_spec(index, jitter, count),
{
    Fixed::from_int(index as i64).add(jitter).div(Fixed::from_int(count as i64 - 1))
}

/// The byte that shows a channel of a colour.
pub fn quantize(channel: Fixed) -> (b: u8)
    ensures
        b == quantize_spec(channel),
{
    proof {
        channel.lemma_sqrt_range();
    }
    let level = channel.sqrt().min(Fixed::from_raw(BRIGHTEST)).raw();
    ((level * 256) / SCALE) as u8
}

/// The red, green and blue bytes that show a colour.
pub fn to_rgb(color: Color) -> (rgb: [u8; 3])
    ensures
        rgb[0] == quantize_spec(color.x),
        rgb[1] == quantize_spec(color.y),
        rgb[2] == quantize_spec(color.z),
{
    [quantize(color.x), quantize(color.y), quantize(color.z)]
}

/// The colour of the pixel in column `x` and row `y` of an image of `width`
/// by `height` pixels: the mean of `samples` colours, each brought back by a
/// ray of the camera through a place of the pixel drawn from `rng`.
pub fn sample_pixel<W: Hittable, R: RandomSource>(
    camera: &Camera,
    world: &W,
    x: u32,
    y: u32,
    width: u32,
    height: u32,
    samples: u32,
    max_depth: u32,
    rng: &mut R,
) -> (c: Color)
    ensures
        c == color_mean(
            sample_colors(
                camera,
                world,
                x,
                y,
                width,
                height,
                samples as nat,
                max_depth as nat,
                *old(rng),
            ).0,
        ),
        *final(rng) == sample_colors(
            camera,
            world,
            x,
            y,
            width,
            height,
            samples as nat,
            max_depth as nat,
            *old(rng),
        ).1,
        never_amplifies(world) ==> in_unit_range(c),
{
    let ghost start = *rng;
    let mut sum = Vec3::zero();
    let ghost mut colors: Seq<Color> = Seq::empty();
    let mut i: u32 = 0;
    while i < samples
        invariant
            i <= samples,
            start == *old(rng),
            colors.len() == i,
            sum == color_sum(colors),
            (colors, *rng) == sample_colors(
                camera,
                world,
                x,
                y,
                width,
                height,
                i as nat,
                max_depth as nat,
                start,
            ),
            never_amplifies(world) ==> forall|k: int|
                0 <= k < colors.len() ==> in_unit_range(#[trigger] colors[k]),
        decreases samples - i,
    {
        let du = rng.next_unit();
        let dv = rng.next_unit();
        let u = pixel_coordinate(x, du, width);
        let v = pixel_coordinate(y, dv, height);
        let r = camera.get_ray(u, v, rng);
        let color = ray_color(&r, world, max_depth, rng);
        proof {
            let before = colors;
            colors = colors.push(color);
            assert(colors.drop_last() == before);
            if never_amplifies(world) {
                assert forall|k: int| 0 <= k < colors.len() implies in_unit_range(
                    #[trigger] colors[k],
                ) by {
                    if k < before.len() {
                        assert(colors[k] == before[k]);
                    }
                }
            }
        }
        sum = sum.add(color);
        i = i + 1;
    }
    proof {
        if never_amplifies(world) {
            lemma_color_mean_in_unit_range(colors);
        }
    }
    sum.div(Fixed::from_int(samples as i64))
}

} // verus!
