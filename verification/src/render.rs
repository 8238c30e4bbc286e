//! The frame sampler and the accumulator: every pixel of a frame is the
//! mean of some jittered samples, and the picture shown is the mean of
//! all frames so far.
use vstd::arithmetic::div_mod::lemma_fundamental_div_mod_converse;
use vstd::prelude::*;
use crate::color::Color;
use crate::fixed::{abs, div_trunc, lemma_tdiv_bound, tdiv, ONE};
use crate::geometry::{scene_wf, SceneObject};
use crate::random::draw_pairs;
use crate::ray_tracing::{
    camera_direction, is_radiance, lemma_pixel_scale, radiance_in_range, trace_ray,
    EMISSION_STRENGTH,
};
use crate::vector::{
    add_vec, displayed, narrow, representable, vadd, vec3_to_color, vzero, Vec3, NARROW_MAX, V3,
};

verus! {

/// The sum of the first `n` vectors of the sequence.
pub open spec fn vsum(samples: Seq<Vec3>, n: int) -> V3
    decreases n,
{
    if n <= 0 {
        vzero()
    } else {
        vadd(vsum(samples, n - 1), samples[n - 1]@)
    }
}

/// Each component of `v` divided by the whole number `n`, rounded toward
/// zero.
pub open spec fn vshare(v: V3, n: int) -> V3 {
    V3 { x: tdiv(v.x, n), y: tdiv(v.y, n), z: tdiv(v.z, n) }
}

/// The mean of the vectors of the sequence.
pub open spec fn vmean(samples: Seq<Vec3>) -> V3 {
    vshare(vsum(samples, samples.len() as int), samples.len() as int)
}

/// Every one of the first `n` vectors has its channels between zero and
/// `bound`.
pub open spec fn channels_within(samples: Seq<Vec3>, n: int, bound: int) -> bool {
    forall|i: int|
        0 <= i < n ==> 0 <= (#[trigger] samples[i]).x <= bound && 0 <= samples[i].y <= bound && 0
            <= samples[i].z <= bound
}

/// The most that a channel of the radiance along a path of `bounces`
/// surfaces can be.
pub open spec fn channel_max(bounces: int) -> int {
    if bounces <= 0 {
        0
    } else {
        bounces * EMISSION_STRENGTH
    }
}

/// The sum of vectors whose channels lie between zero and `bound` has its
/// channels between zero and as many times `bound`.
pub proof fn lemma_vsum_range(samples: Seq<Vec3>, n: int, bound: int)
    requires
        0 <= n <= samples.len(),
        channels_within(samples, n, bound),
    ensures
        0 <= vsum(samples, n).x <= n * bound,
        0 <= vsum(samples, n).y <= n * bound,
        0 <= vsum(samples, n).z <= n * bound,
    decreases n,
{
    if n > 0 {
        lemma_vsum_range(samples, n - 1, bound);
        assert(n * bound == (n - 1) * bound + bound) by (nonlinear_arith);
        assert(0 <= samples[n - 1].x <= bound);
    } else {
        assert(n * bound == 0) by (nonlinear_arith)
            requires
                n == 0,
        ;
    }
}

/// The sum of narrow vectors is at most as many times the bound of a
/// narrow component in magnitude.
pub proof fn lemma_vsum_narrow(samples: Seq<Vec3>, n: int)
    requires
        0 <= n <= samples.len(),
        forall|i: int| 0 <= i < samples.len() ==> narrow((#[trigger] samples[i])@),
    ensures
        abs(vsum(samples, n).x) <= n * NARROW_MAX,
        abs(vsum(samples, n).y) <= n * NARROW_MAX,
        abs(vsum(samples, n).z) <= n * NARROW_MAX,
    decreases n,
{
    if n > 0 {
        lemma_vsum_narrow(samples, n - 1);
        assert(narrow(samples[n - 1]@));
    }
}

/// A whole number of at most `n` times `bound` in magnitude, divided by
/// `n`, is at most `bound` in magnitude; it is not negative where the
/// number is not.
pub proof fn lemma_share_bound(a: int, n: int, bound: int)
    requires
        0 < n,
        abs(a) <= n * bound,
    ensures
        abs(tdiv(a, n)) <= bound,
        0 <= a ==> 0 <= tdiv(a, n),
{
    lemma_tdiv_bound(a, n);
    let q = abs(tdiv(a, n));
    assert(q <= bound) by (nonlinear_arith)
        requires
            q * n <= abs(a),
            abs(a) <= n * bound,
            0 < n,
    ;
}

/// The mean of vectors whose channels lie between zero and `bound` has
/// its channels between zero and `bound`.
pub proof fn lemma_vmean_range(samples: Seq<Vec3>, bound: int)
    requires
        0 < samples.len(),
        channels_within(samples, samples.len() as int, bound),
    ensures
        0 <= vmean(samples).x <= bound,
        0 <= vmean(samples).y <= bound,
        0 <= vmean(samples).z <= bound,
{
    let n = samples.len() as int;
    lemma_vsum_range(samples, n, bound);
    lemma_share_bound(vsum(samples, n).x, n, bound);
    lemma_share_bound(vsum(samples, n).y, n, bound);
    lemma_share_bound(vsum(samples, n).z, n, bound);
}

/// `sample` is the radiance along some path of at most `max_bounces`
/// surfaces that leaves the camera through some point of the pixel
/// `(x, y)`.
pub open spec fn is_sample(
    scene: Seq<SceneObject>,
    x: int,
    y: int,
    win_w: int,
    win_h: int,
    max_bounces: int,
    sample: V3,
) -> bool {
    exists|jitter_x: int, jitter_y: int|
        0 <= jitter_x < ONE && 0 <= jitter_y < ONE && #[trigger] is_radiance(
            scene,
            vzero(),
            camera_direction(x, y, jitter_x, jitter_y, win_w, win_h),
            max_bounces,
            sample,
        )
}

/// `radiance` is the mean of `samples_per_frame` samples of the pixel
/// `(x, y)`, each with channels in the range that `max_bounces` allows.
pub open spec fn is_pixel(
    scene: Seq<SceneObject>,
    x: int,
    y: int,
    win_w: int,
    win_h: int,
    max_bounces: int,
    samples_per_frame: int,
    radiance: V3,
) -> bool {
    exists|samples: Seq<Vec3>|
        samples.len() == samples_per_frame && channels_within(
            samples,
            samples.len() as int,
            channel_max(max_bounces),
        ) && (forall|i: int|
            0 <= i < samples.len() ==> is_sample(
                scene,
                x,
                y,
                win_w,
                win_h,
                max_bounces,
                (#[trigger] samples[i])@,
            )) && radiance == #[trigger] vmean(samples)
}

/// The mean of the given radiances, channel by channel.
pub fn average_radiance(samples: &Vec<Vec3>) -> (mean: Vec3)
    requires
        0 < samples.len(),
        forall|i: int| 0 <= i < samples.len() ==> narrow((#[trigger] samples[i])@),
    ensures
        mean@ == vmean(samples@),
{
    let mut sum_x: i128 = 0;
    let mut sum_y: i128 = 0;
    let mut sum_z: i128 = 0;
    let mut i: usize = 0;
    while i < samples.len()
        invariant
            i <= samples.len(),
            forall|k: int| 0 <= k < samples.len() ==> narrow((#[trigger] samples[k])@),
            sum_x == vsum(samples@, i as int).x,
            sum_y == vsum(samples@, i as int).y,
            sum_z == vsum(samples@, i as int).z,
        decreases samples.len() - i,
    {
        proof {
            lemma_vsum_narrow(samples@, i as int);
            assert(narrow(samples@[i as int]@));
        }
        let sample: Vec3 = samples[i];
        sum_x = sum_x + sample.x as i128;
        sum_y = sum_y + sample.y as i128;
        sum_z = sum_z + sample.z as i128;
        i = i + 1;
    }
    let count: i128 = samples.len() as i128;
    proof {
        lemma_vsum_narrow(samples@, count as int);
        lemma_share_bound(sum_x as int, count as int, NARROW_MAX as int);
        lemma_share_bound(sum_y as int, count as int, NARROW_MAX as int);
        lemma_share_bound(sum_z as int, count as int, NARROW_MAX as int);
    }
    Vec3 {
        x: div_trunc(sum_x, count) as i64,
        y: div_trunc(sum_y, count) as i64,
        z: div_trunc(sum_z, count) as i64,
    }
}

/// The radiance of the pixel `(x, y)` in one frame: the mean of
/// `samples_per_frame` samples, each along a random path through a
/// randomly jittered point of the pixel.
pub fn render_pixel(
    x: i32,
    y: i32,
    win_w: i32,
    win_h: i32,
    scene: &Vec<SceneObject>,
    max_bounces: i32,
    samples_per_frame: u32,
) -> (radiance: Vec3)
    requires
        0 < win_w,
        0 < win_h,
        scene_wf(scene@),
        0 < samples_per_frame,
    ensures
        is_pixel(
            scene@,
            x as int,
            y as int,
            win_w as int,
            win_h as int,
            max_bounces as int,
            samples_per_frame as int,
            radiance@,
        ),
        radiance_in_range(radiance@, max_bounces as int),
{
    proof {
        lemma_pixel_scale(x as int);
        lemma_pixel_scale(y as int);
    }
    assert(channel_max(max_bounces as int) <= 0x7fff_ffff * 7_500_000) by (nonlinear_arith)
        requires
            max_bounces <= 0x7fff_ffff,
            channel_max(max_bounces as int) == if max_bounces <= 0 {
                0
            } else {
                max_bounces * 7_500_000
            },
    ;
    let mut samples: Vec<Vec3> = Vec::new();
    let mut taken: u32 = 0;
    while taken < samples_per_frame
        invariant
            taken <= samples_per_frame,
            samples.len() == taken,
            0 < win_w,
            0 < win_h,
            scene_wf(scene@),
                abs(x * ONE) <= 2_147_483_648_000_000,
            abs(y * ONE) <= 2_147_483_648_000_000,
            channels_within(samples@, samples.len() as int, channel_max(max_bounces as int)),
            forall|i: int|
                0 <= i < samples.len() ==> is_sample(
                    scene@,
                    x as int,
                    y as int,
                    win_w as int,
                    win_h as int,
                    max_bounces as int,
                    (#[trigger] samples[i])@,
                ),
        decreases samples_per_frame - taken,
    {
        let jitter: Vec<(i64, i64)> = draw_pairs(1);
        let pair: (i64, i64) = jitter[0];
        let sample: Vec3 = trace_ray(x, y, pair.0, pair.1, win_w, win_h, scene, max_bounces);
        assert(is_sample(
            scene@,
            x as int,
            y as int,
            win_w as int,
            win_h as int,
            max_bounces as int,
            sample@,
        ));
        samples.push(sample);
        taken = taken + 1;
    }
    proof {
        lemma_vmean_range(samples@, channel_max(max_bounces as int));
        assert forall|i: int| 0 <= i < samples.len() implies narrow((#[trigger] samples[i])@) by {
            assert(0 <= samples[i].x <= channel_max(max_bounces as int));
        }
    }
    average_radiance(&samples)
}

/// One scanline of a frame: the radiance of each pixel of the row `y`,
/// from left to right.
pub fn render_row(
    y: i32,
    win_w: i32,
    win_h: i32,
    scene: &Vec<SceneObject>,
    max_bounces: i32,
    samples_per_frame: u32,
) -> (row: Vec<Vec3>)
    requires
        0 < win_w,
        0 < win_h,
        scene_wf(scene@),
        0 < samples_per_frame,
    ensures
        row.len() == win_w,
        forall|x: int|
            0 <= x < row.len() ==> radiance_in_range((#[trigger] row[x])@, max_bounces as int)
                && is_pixel(
                scene@,
                x,
                y as int,
                win_w as int,
                win_h as int,
                max_bounces as int,
                samples_per_frame as int,
                row[x]@,
            ),
{
    let mut row: Vec<Vec3> = Vec::new();
    let mut x: i32 = 0;
    while x < win_w
        invariant
            0 <= x <= win_w,
            row.len() == x,
            0 < win_h,
            scene_wf(scene@),
                0 < samples_per_frame,
            forall|k: int|
                0 <= k < row.len() ==> radiance_in_range((#[trigger] row[k])@, max_bounces as int)
                    && is_pixel(
                    scene@,
                    k,
                    y as int,
                    win_w as int,
                    win_h as int,
                    max_bounces as int,
                    samples_per_frame as int,
                    row[k]@,
                ),
        decreases win_w - x,
    {
        let radiance: Vec3 = render_pixel(
            x,
            y,
            win_w,
            win_h,
            scene,
            max_bounces,
            samples_per_frame,
        );
        row.push(radiance);
        x = x + 1;
    }
    row
}

/// One frame: the radiance of every pixel, row after row from the top,
/// each row from left to right, so that the pixel `(x, y)` stands at the
/// index `y * win_w + x`.
pub fn render_frame(
    scene: &Vec<SceneObject>,
    win_w: i32,
    win_h: i32,
    max_bounces: i32,
    samples_per_frame: u32,
) -> (frame: Vec<Vec3>)
    requires
        0 < win_w,
        0 < win_h,
        scene_wf(scene@),
        0 < samples_per_frame,
    ensures
        frame.len() == win_w * win_h,
        forall|i: int|
            0 <= i < frame.len() ==> radiance_in_range((#[trigger] frame[i])@, max_bounces as int)
                && is_pixel(
                scene@,
                i % (win_w as int),
                i / (win_w as int),
                win_w as int,
                win_h as int,
                max_bounces as int,
                samples_per_frame as int,
                frame[i]@,
            ),
{
    let mut frame: Vec<Vec3> = Vec::new();
    let mut y: i32 = 0;
    while y < win_h
        invariant
            0 <= y <= win_h,
            frame.len() == win_w * y,
            0 < win_w,
            scene_wf(scene@),
                0 < samples_per_frame,
            forall|i: int|
                0 <= i < frame.len() ==> radiance_in_range(
                    (#[trigger] frame[i])@,
                    max_bounces as int,
                ) && is_pixel(
                    scene@,
                    i % (win_w as int),
                    i / (win_w as int),
                    win_w as int,
                    win_h as int,
                    max_bounces as int,
                    samples_per_frame as int,
                    frame[i]@,
                ),
        decreases win_h - y,
    {
        let row: Vec<Vec3> = render_row(y, win_w, win_h, scene, max_bounces, samples_per_frame);
        let mut x: usize = 0;
        while x < row.len()
            invariant
                x <= row.len(),
                row.len() == win_w,
                0 < win_w,
                frame.len() == win_w * y + x,
                forall|k: int|
                    0 <= k < row.len() ==> radiance_in_range(
                        (#[trigger] row[k])@,
                        max_bounces as int,
                    ) && is_pixel(
                        scene@,
                        k,
                        y as int,
                        win_w as int,
                        win_h as int,
                        max_bounces as int,
                        samples_per_frame as int,
                        row[k]@,
                    ),
                forall|i: int|
                    0 <= i < frame.len() ==> radiance_in_range(
                        (#[trigger] frame[i])@,
                        max_bounces as int,
                    ) && is_pixel(
                        scene@,
                        i % (win_w as int),
                        i / (win_w as int),
                        win_w as int,
                        win_h as int,
                        max_bounces as int,
                        samples_per_frame as int,
                        frame[i]@,
                    ),
            decreases row.len() - x,
        {
            proof {
                let i = win_w * y + x;
                assert(i == y * win_w + x) by (nonlinear_arith)
                    requires
                        i == win_w * y + x,
                ;
                lemma_fundamental_div_mod_converse(i, win_w as int, y as int, x as int);
            }
            frame.push(row[x]);
            x = x + 1;
        }
        assert(win_w * (y + 1) == win_w * y + win_w) by (nonlinear_arith);
        y = y + 1;
    }
    frame
}

/// An accumulation buffer for `pixels` pixels, with nothing summed in it
/// yet.
pub fn new_buffer(pixels: usize) -> (buffer: Vec<Vec3>)
    ensures
        buffer.len() == pixels,
        forall|i: int| 0 <= i < buffer.len() ==> (#[trigger] buffer[i])@ == vzero(),
{
    let mut buffer: Vec<Vec3> = Vec::new();
    while buffer.len() < pixels
        invariant
            buffer.len() <= pixels,
            forall|i: int| 0 <= i < buffer.len() ==> (#[trigger] buffer[i])@ == vzero(),
        decreases pixels - buffer.len(),
    {
        buffer.push(Vec3 { x: 0, y: 0, z: 0 });
    }
    buffer
}

/// Adds the frame to the accumulation buffer, pixel by pixel, and returns
/// the picture to show: for each pixel the colour of the buffer's sum
/// divided by `frame_count`, the number of frames summed so far, this one
/// included.
pub fn accumulate(buffer: &mut Vec<Vec3>, frame: &Vec<Vec3>, frame_count: u32) -> (picture: Vec<
    Color,
>)
    requires
        old(buffer).len() == frame.len(),
        0 < frame_count,
        forall|i: int|
            0 <= i < frame.len() ==> representable(
                vadd((#[trigger] old(buffer)[i])@, frame[i]@),
            ),
    ensures
        final(buffer).len() == old(buffer).len(),
        forall|i: int|
            0 <= i < frame.len() ==> (#[trigger] final(buffer)[i])@ == vadd(
                old(buffer)[i]@,
                frame[i]@,
            ),
        picture.len() == frame.len(),
        forall|i: int|
            0 <= i < frame.len() ==> #[trigger] picture[i] == displayed(
                vshare(final(buffer)[i]@, frame_count as int),
            ),
{
    let mut picture: Vec<Color> = Vec::new();
    let mut i: usize = 0;
    while i < frame.len()
        invariant
            i <= frame.len(),
            buffer.len() == frame.len(),
            buffer.len() == old(buffer).len(),
            0 < frame_count,
            picture.len() == i,
            forall|k: int|
                i <= k < frame.len() ==> (#[trigger] buffer[k]) == old(buffer)[k],
            forall|k: int|
                0 <= k < frame.len() ==> representable(
                    vadd((#[trigger] old(buffer)[k])@, frame[k]@),
                ),
            forall|k: int|
                0 <= k < i ==> (#[trigger] buffer[k])@ == vadd(old(buffer)[k]@, frame[k]@),
            forall|k: int|
                0 <= k < i ==> #[trigger] picture[k] == displayed(
                    vshare(buffer[k]@, frame_count as int),
                ),
        decreases frame.len() - i,
    {
        assert(buffer[i as int] == old(buffer)[i as int]);
        let sum: Vec3 = add_vec(buffer[i], frame[i]);
        buffer.set(i, sum);
        proof {
            lemma_tdiv_bound(sum.x as int, frame_count as int);
            lemma_tdiv_bound(sum.y as int, frame_count as int);
            lemma_tdiv_bound(sum.z as int, frame_count as int);
        }
        let avg_color_vec: Vec3 = Vec3 {
            x: div_trunc(sum.x as i128, frame_count as i128) as i64,
            y: div_trunc(sum.y as i128, frame_count as i128) as i64,
            z: div_trunc(sum.z as i128, frame_count as i128) as i64,
        };
        picture.push(vec3_to_color(avg_color_vec));
        i = i + 1;
    }
    picture
}

} // verus!
