//! The compositor: blending a color through a coverage mask into a buffer of
//! pixels, over a window of the buffer. And the session of a renderer: a
//! program with its stack and its change flags, which tell what is stale.

use vstd::prelude::*;
use vstd::utf8::{encode_utf8, encode_utf8_decode_utf8};
use crate::computing::{
    computed, flagged, name_view, total, Couple, Operation, ParsingError, ParsingResult,
};
use crate::drawing::{PathStep, Triangle};
use crate::layout::{decoded, lemma_indexed_rows, lemma_indexed_runs, ProgramView};
use crate::reading::verdict;
use crate::serialized::{resolved, resolved_path, SerializedProgram};

verus! {

/// A pixel: red, green, blue and alpha, eight bits each.
#[derive(Clone, Copy, Debug, PartialEq, Eq, Structural)]
pub struct Pixel {
    pub r: u8,
    pub g: u8,
    pub b: u8,
    pub a: u8,
}

/// One channel of `src` over one of `dst`, `alpha` parts in 255 of the first.
pub open spec fn mixed(src: u8, dst: u8, alpha: int) -> u8 {
    ((src * alpha + dst * (255 - alpha)) / 255) as u8
}

/// One channel of `src`, `coverage` parts in 255 of it.
pub open spec fn scaled(src: u8, coverage: int) -> u8 {
    ((src * coverage) / 255) as u8
}

/// The alpha at which `src` is laid where the mask covers `coverage` parts in 255.
pub open spec fn effective_alpha(src: Pixel, coverage: u8) -> int {
    (src.a * coverage) / 255
}

/// What a pixel becomes when `src` is laid on it through a mask that covers
/// `coverage` parts in 255. Blending mixes each channel of `src` with that of
/// `dst` at the effective alpha; writing scales each channel of `src` by the
/// coverage and forgets `dst`.
pub open spec fn blended(dst: Pixel, src: Pixel, coverage: u8, alpha_blend: bool) -> Pixel {
    if alpha_blend {
        let alpha = effective_alpha(src, coverage);
        Pixel {
            r: mixed(src.r, dst.r, alpha),
            g: mixed(src.g, dst.g, alpha),
            b: mixed(src.b, dst.b, alpha),
            a: mixed(src.a, dst.a, alpha),
        }
    } else {
        Pixel {
            r: scaled(src.r, coverage as int),
            g: scaled(src.g, coverage as int),
            b: scaled(src.b, coverage as int),
            a: scaled(src.a, coverage as int),
        }
    }
}

fn mix(src: u8, dst: u8, alpha: u32) -> (r: u8)
    requires
        alpha <= 255,
    ensures
        r == mixed(src, dst, alpha as int),
{
    assert(src * alpha + dst * (255 - alpha) <= 255 * 255 && 0 <= src * alpha && 0 <= dst * (255
        - alpha)) by (nonlinear_arith)
        requires
            0 <= src <= 255,
            0 <= dst <= 255,
            0 <= alpha <= 255,
    ;
    let s: u32 = src as u32 * alpha;
    let d: u32 = dst as u32 * (255 - alpha);
    ((s + d) / 255) as u8
}

fn scale(src: u8, coverage: u8) -> (r: u8)
    ensures
        r == scaled(src, coverage as int),
{
    assert(0 <= src * coverage <= 255 * 255) by (nonlinear_arith)
        requires
            0 <= src <= 255,
            0 <= coverage <= 255,
    ;
    let s: u32 = src as u32 * coverage as u32;
    (s / 255) as u8
}

/// Lays `src_pixel` on `dst_pixel` through a mask that covers `mask_alpha`
/// parts in 255.
pub fn blend_pixel(dst_pixel: &mut Pixel, src_pixel: Pixel, mask_alpha: u8, alpha_blend_dst: bool)
    ensures
        *final(dst_pixel) == blended(*old(dst_pixel), src_pixel, mask_alpha, alpha_blend_dst),
{
    let dst = *dst_pixel;
    *dst_pixel = blend(dst, src_pixel, mask_alpha, alpha_blend_dst);
}

/// What `dst` becomes when `src` is laid on it through a mask that covers
/// `coverage` parts in 255.
pub fn blend(dst: Pixel, src: Pixel, coverage: u8, alpha_blend: bool) -> (r: Pixel)
    ensures
        r == blended(dst, src, coverage, alpha_blend),
{
    if alpha_blend {
        assert(0 <= src.a * coverage <= 255 * 255) by (nonlinear_arith)
            requires
                0 <= src.a <= 255,
                0 <= coverage <= 255,
        ;
        let product: u32 = src.a as u32 * coverage as u32;
        let alpha: u32 = product / 255;
        Pixel {
            r: mix(src.r, dst.r, alpha),
            g: mix(src.g, dst.g, alpha),
            b: mix(src.b, dst.b, alpha),
            a: mix(src.a, dst.a, alpha),
        }
    } else {
        Pixel {
            r: scale(src.r, coverage),
            g: scale(src.g, coverage),
            b: scale(src.b, coverage),
            a: scale(src.a, coverage),
        }
    }
}

/// Full coverage lays an opaque color as it is, and so does writing at full
/// coverage with any color; no coverage leaves a blended pixel as it was.
pub proof fn lemma_blend_extremes(dst: Pixel, src: Pixel, coverage: u8)
    ensures
        src.a == 255 ==> blended(dst, src, 255, true) == src,
        blended(dst, src, 255, false) == src,
        blended(dst, src, 0, true) == dst,
        blended(dst, src, 0, false) == (Pixel { r: 0, g: 0, b: 0, a: 0 }),
{
    assert(effective_alpha(src, 0) == 0);
    assert(forall|s: u8, d: u8| mixed(s, d, 0) == d);
    if src.a == 255 {
        assert(effective_alpha(src, 255) == 255);
        assert(forall|s: u8, d: u8| mixed(s, d, 255) == s);
    }
}

/// Where the pixel at column `x` of row `y` stands in a buffer whose rows
/// are `stride` pixels apart.
pub open spec fn place(x: int, y: int, stride: int) -> int {
    y * stride + x
}

/// True when a window of `w` by `h` pixels at the top left lies inside a
/// buffer of `len` pixels whose rows are `stride` apart.
pub open spec fn window_fits(len: int, w: int, h: int, stride: int) -> bool {
    &&& 0 <= w <= stride
    &&& 0 <= h
    &&& h > 0 ==> (h - 1) * stride + w <= len
}

/// True when place `i` of the buffer is a pixel of the window.
pub open spec fn in_window(i: int, w: int, h: int, stride: int) -> bool {
    exists|x: int, y: int| 0 <= x < w && 0 <= y < h && i == #[trigger] place(x, y, stride)
}

/// No two pixels of the window stand at one place.
pub proof fn lemma_place_injective(x1: int, y1: int, x2: int, y2: int, w: int, stride: int)
    requires
        0 <= x1 < w,
        0 <= x2 < w,
        w <= stride,
        0 <= y1,
        0 <= y2,
        place(x1, y1, stride) == place(x2, y2, stride),
    ensures
        x1 == x2,
        y1 == y2,
{
    if y1 < y2 {
        assert(y2 * stride >= y1 * stride + stride) by (nonlinear_arith)
            requires
                y1 < y2,
                stride >= 0,
        ;
    } else if y2 < y1 {
        assert(y1 * stride >= y2 * stride + stride) by (nonlinear_arith)
            requires
                y2 < y1,
                stride >= 0,
        ;
    }
}

/// Every pixel of a window that fits stands inside the buffer.
pub proof fn lemma_place_inside(x: int, y: int, len: int, w: int, h: int, stride: int)
    requires
        window_fits(len, w, h, stride),
        0 <= x < w,
        0 <= y < h,
    ensures
        0 <= place(x, y, stride) < len,
        0 <= y * w + x < w * h,
        0 <= y * w,
        0 <= y * stride,
        w * h <= len,
{
    assert((h - 1) * w <= (h - 1) * stride && w * h == (h - 1) * w + w) by (nonlinear_arith)
        requires
            0 <= h - 1,
            0 <= w <= stride,
    ;
    assert(y * stride <= (h - 1) * stride && 0 <= y * stride) by (nonlinear_arith)
        requires
            0 <= y <= h - 1,
            stride >= 0,
    ;
    assert(y * w + w <= h * w && 0 <= y * w && h * w == w * h) by (nonlinear_arith)
        requires
            0 <= y <= h - 1,
            w >= 0,
    ;
}

/// What is laid on each pixel of a window.
pub enum Ink<'a> {
    /// Transparent black, whatever the pixel held.
    Erase,
    /// One color, through a mask, on the pixels that the mask covers.
    Flat(&'a Vec<u8>, Pixel, bool),
    /// A color for each pixel, through a mask, on the pixels that the mask
    /// covers and that have a color.
    Each(&'a Vec<u8>, &'a Vec<Option<Pixel>>, bool),
}

impl<'a> Ink<'a> {
    /// True when the mask and the colors have a place for every pixel of a
    /// window of `w` by `h` pixels.
    pub open spec fn covers(&self, w: int, h: int) -> bool {
        match self {
            Ink::Erase => true,
            Ink::Flat(mask, _, _) => mask.len() >= w * h,
            Ink::Each(mask, colors, _) => mask.len() >= w * h && colors.len() >= w * h,
        }
    }

    /// What the pixel at place `m` of the window becomes, from what it held.
    pub open spec fn on(&self, held: Pixel, m: int) -> Pixel {
        match self {
            Ink::Erase => Pixel { r: 0, g: 0, b: 0, a: 0 },
            Ink::Flat(mask, color, alpha_blend) => if mask[m] != 0 {
                blended(held, *color, mask[m], *alpha_blend)
            } else {
                held
            },
            Ink::Each(mask, colors, alpha_blend) => if mask[m] != 0 {
                match colors[m] {
                    Some(color) => blended(held, color, mask[m], *alpha_blend),
                    None => held,
                }
            } else {
                held
            },
        }
    }

    fn put(&self, held: Pixel, m: usize) -> (r: Pixel)
        requires
            match self {
                Ink::Erase => true,
                Ink::Flat(mask, _, _) => m < mask.len(),
                Ink::Each(mask, colors, _) => m < mask.len() && m < colors.len(),
            },
        ensures
            r == self.on(held, m as int),
    {
        match self {
            Ink::Erase => Pixel { r: 0, g: 0, b: 0, a: 0 },
            Ink::Flat(mask, color, alpha_blend) => {
                let coverage: u8 = mask[m];
                if coverage != 0 {
                    blend(held, *color, coverage, *alpha_blend)
                } else {
                    held
                }
            },
            Ink::Each(mask, colors, alpha_blend) => {
                let coverage: u8 = mask[m];
                if coverage != 0 {
                    match colors[m] {
                        Some(color) => blend(held, color, coverage, *alpha_blend),
                        None => held,
                    }
                } else {
                    held
                }
            },
        }
    }
}

/// True when the pixel at column `x1` of row `y1` comes before column `x` of
/// row `y` in a walk by rows.
pub open spec fn before(x1: int, y1: int, x: int, y: int) -> bool {
    y1 < y || (y1 == y && x1 < x)
}

/// Lays `ink` on every pixel of the window of `w` by `h` pixels at the top
/// left of `dst`, walking the window by rows. The pixels outside the window
/// are left as they were.
pub fn paint(dst: &mut Vec<Pixel>, w: usize, h: usize, stride: usize, ink: &Ink)
    requires
        window_fits(old(dst).len() as int, w as int, h as int, stride as int),
        ink.covers(w as int, h as int),
    ensures
        final(dst).len() == old(dst).len(),
        forall|x: int, y: int|
            0 <= x < w && 0 <= y < h ==> final(dst)@[#[trigger] place(x, y, stride as int)]
                == ink.on(old(dst)@[place(x, y, stride as int)], y * w + x),
        forall|i: int|
            0 <= i < final(dst).len() && !in_window(i, w as int, h as int, stride as int)
                ==> final(dst)@[i] == old(dst)@[i],
{
    let ghost held = dst@;
    let ghost len = dst@.len() as int;
    if w == 0 {
        return ;
    }
    let total: usize = dst.len();
    let mut y: usize = 0;
    let mut line: usize = 0;
    let mut base: usize = 0;
    while y < h
        invariant
            w > 0,
            total == len,
            held == old(dst)@,
            len == held.len(),
            window_fits(len, w as int, h as int, stride as int),
            ink.covers(w as int, h as int),
            dst@.len() == len,
            y <= h,
            y < h ==> line == y * stride && base == y * w,
            forall|x1: int, y1: int|
                0 <= x1 < w && 0 <= y1 < y ==> dst@[#[trigger] place(x1, y1, stride as int)]
                    == ink.on(held[place(x1, y1, stride as int)], y1 * w + x1),
            forall|x1: int, y1: int|
                0 <= x1 < w && y <= y1 < h ==> dst@[#[trigger] place(x1, y1, stride as int)]
                    == held[place(x1, y1, stride as int)],
            forall|i: int|
                0 <= i < len && !in_window(i, w as int, h as int, stride as int) ==> dst@[i]
                    == held[i],
        decreases h - y,
    {
        let mut x: usize = 0;
        while x < w
            invariant
                w > 0,
                total == len,
                held == old(dst)@,
                len == held.len(),
                window_fits(len, w as int, h as int, stride as int),
                ink.covers(w as int, h as int),
                dst@.len() == len,
                y < h,
                x <= w,
                line == y * stride,
                base == y * w,
                forall|x1: int, y1: int|
                    0 <= x1 < w && 0 <= y1 < h && before(x1, y1, x as int, y as int) ==> dst@[#[trigger] place(
                        x1,
                        y1,
                        stride as int,
                    )] == ink.on(held[place(x1, y1, stride as int)], y1 * w + x1),
                forall|x1: int, y1: int|
                    0 <= x1 < w && 0 <= y1 < h && !before(x1, y1, x as int, y as int) ==> dst@[#[trigger] place(
                        x1,
                        y1,
                        stride as int,
                    )] == held[place(x1, y1, stride as int)],
                forall|i: int|
                    0 <= i < len && !in_window(i, w as int, h as int, stride as int) ==> dst@[i]
                        == held[i],
            decreases w - x,
        {
            proof {
                lemma_place_inside(x as int, y as int, len, w as int, h as int, stride as int);
            }
            let at: usize = line + x;
            let m: usize = base + x;
            assert(at == place(x as int, y as int, stride as int));
            let ghost prior = dst@;
            let now = ink.put(dst[at], m);
            dst[at] = now;
            proof {
                assert forall|x1: int, y1: int|
                    0 <= x1 < w && 0 <= y1 < h && before(
                        x1,
                        y1,
                        x + 1,
                        y as int,
                    ) implies dst@[#[trigger] place(x1, y1, stride as int)] == ink.on(
                    held[place(x1, y1, stride as int)],
                    y1 * w + x1,
                ) by {
                    lemma_place_inside(x1, y1, len, w as int, h as int, stride as int);
                    if place(x1, y1, stride as int) == at {
                        lemma_place_injective(x1, y1, x as int, y as int, w as int, stride as int);
                    } else {
                        assert(before(x1, y1, x as int, y as int)) by {
                            if x1 == x && y1 == y {
                                assert(place(x1, y1, stride as int) == at);
                            }
                        }
                        assert(prior[place(x1, y1, stride as int)] == ink.on(
                            held[place(x1, y1, stride as int)],
                            y1 * w + x1,
                        ));
                    }
                }
                assert forall|x1: int, y1: int|
                    0 <= x1 < w && 0 <= y1 < h && !before(
                        x1,
                        y1,
                        x + 1,
                        y as int,
                    ) implies dst@[#[trigger] place(x1, y1, stride as int)] == held[place(
                    x1,
                    y1,
                    stride as int,
                )] by {
                    lemma_place_inside(x1, y1, len, w as int, h as int, stride as int);
                    if place(x1, y1, stride as int) == at {
                        lemma_place_injective(x1, y1, x as int, y as int, w as int, stride as int);
                    }
                    assert(!before(x1, y1, x as int, y as int));
                    assert(prior[place(x1, y1, stride as int)] == held[place(
                        x1,
                        y1,
                        stride as int,
                    )]);
                }
                assert forall|i: int|
                    0 <= i < len && !in_window(
                        i,
                        w as int,
                        h as int,
                        stride as int,
                    ) implies dst@[i] == held[i] by {
                    if i == at {
                        assert(in_window(i, w as int, h as int, stride as int));
                    }
                }
            }
            x += 1;
        }
        y += 1;
        if y < h {
            proof {
                lemma_place_inside(0, y as int, len, w as int, h as int, stride as int);
                assert(y * stride == (y - 1) * stride + stride) by (nonlinear_arith);
                assert(y * w == (y - 1) * w + w) by (nonlinear_arith);
            }
            line += stride;
            base += w;
        }
    }
}

/// Clears the window of `w` by `h` pixels at the top left of `dst` to
/// transparent black.
pub fn clear_window(dst: &mut Vec<Pixel>, w: usize, h: usize, stride: usize)
    requires
        window_fits(old(dst).len() as int, w as int, h as int, stride as int),
    ensures
        final(dst).len() == old(dst).len(),
        forall|x: int, y: int|
            0 <= x < w && 0 <= y < h ==> final(dst)@[#[trigger] place(x, y, stride as int)] == (
            Pixel { r: 0, g: 0, b: 0, a: 0 }),
        forall|i: int|
            0 <= i < final(dst).len() && !in_window(i, w as int, h as int, stride as int)
                ==> final(dst)@[i] == old(dst)@[i],
{
    paint(dst, w, h, stride, &Ink::Erase);
}

/// Blends one color into the window through a mask: on each pixel that the
/// mask covers, the color is laid with that coverage.
pub fn blend_flat(
    dst: &mut Vec<Pixel>,
    mask: &Vec<u8>,
    w: usize,
    h: usize,
    stride: usize,
    color: Pixel,
    alpha_blend: bool,
)
    requires
        window_fits(old(dst).len() as int, w as int, h as int, stride as int),
        mask.len() >= w * h,
    ensures
        final(dst).len() == old(dst).len(),
        forall|x: int, y: int|
            0 <= x < w && 0 <= y < h ==> final(dst)@[#[trigger] place(x, y, stride as int)] == (
            if mask[y * w + x] != 0 {
                blended(old(dst)@[place(x, y, stride as int)], color, mask[y * w + x], alpha_blend)
            } else {
                old(dst)@[place(x, y, stride as int)]
            }),
        forall|i: int|
            0 <= i < final(dst).len() && !in_window(i, w as int, h as int, stride as int)
                ==> final(dst)@[i] == old(dst)@[i],
{
    paint(dst, w, h, stride, &Ink::Flat(mask, color, alpha_blend));
}

/// Blends a color for each pixel into the window through a mask: on each
/// pixel that the mask covers and that has a color, the color is laid with
/// that coverage.
pub fn blend_each(
    dst: &mut Vec<Pixel>,
    mask: &Vec<u8>,
    colors: &Vec<Option<Pixel>>,
    w: usize,
    h: usize,
    stride: usize,
    alpha_blend: bool,
)
    requires
        window_fits(old(dst).len() as int, w as int, h as int, stride as int),
        mask.len() >= w * h,
        colors.len() >= w * h,
    ensures
        final(dst).len() == old(dst).len(),
        forall|x: int, y: int|
            0 <= x < w && 0 <= y < h ==> final(dst)@[#[trigger] place(x, y, stride as int)] == (
            if mask[y * w + x] != 0 && colors[y * w + x] is Some {
                blended(
                    old(dst)@[place(x, y, stride as int)],
                    colors[y * w + x]->0,
                    mask[y * w + x],
                    alpha_blend,
                )
            } else {
                old(dst)@[place(x, y, stride as int)]
            }),
        forall|i: int|
            0 <= i < final(dst).len() && !in_window(i, w as int, h as int, stride as int)
                ==> final(dst)@[i] == old(dst)@[i],
{
    paint(dst, w, h, stride, &Ink::Each(mask, colors, alpha_blend));
}

/// The place of the first name at or after `from` that is `name`.
pub open spec fn named_at(names: Seq<Option<Seq<char>>>, name: Seq<char>, from: int) -> Option<int>
    decreases names.len() - from,
{
    if from >= names.len() {
        None
    } else if names[from] == Some(name) {
        Some(from)
    } else {
        named_at(names, name, from + 1)
    }
}

/// The names of the arguments of a program.
pub open spec fn argument_names(program: ProgramView) -> Seq<Option<Seq<char>>> {
    Seq::new(program.arguments.len(), |i: int| program.arguments[i].name)
}

/// The names of the outputs of a program.
pub open spec fn output_names(program: ProgramView) -> Seq<Option<Seq<char>>> {
    Seq::new(program.outputs.len(), |i: int| program.outputs[i].name)
}

/// True when a flag is up for one of the addresses that the step reads.
pub open spec fn step_touched(changes: Seq<bool>, step: PathStep) -> bool {
    match step {
        PathStep::Arc(arc) => changes[arc.start_point as int] || changes[arc.center as int]
            || changes[arc.deltas as int],
        PathStep::CubicCurve(curve) => changes[curve.points[0] as int]
            || changes[curve.points[1] as int] || changes[curve.points[2] as int]
            || changes[curve.points[3] as int],
        PathStep::QuadraticCurve(curve) => changes[curve.points[0] as int]
            || changes[curve.points[1] as int] || changes[curve.points[2] as int],
        PathStep::Line(line) => changes[line.points[0] as int] || changes[line.points[1] as int],
    }
}

/// True when a flag is up for one of the addresses that a step of the path reads.
pub open spec fn path_touched(changes: Seq<bool>, path: Seq<PathStep>) -> bool {
    exists|k: int| 0 <= k < path.len() && step_touched(changes, #[trigger] path[k])
}

/// True when a flag is up for one of the three points of the triangle.
pub open spec fn points_touched(changes: Seq<bool>, triangle: Triangle) -> bool {
    changes[triangle.points[0] as int] || changes[triangle.points[1] as int]
        || changes[triangle.points[2] as int]
}

/// True when a flag is up for one of the six color addresses of the triangle.
pub open spec fn colors_touched(changes: Seq<bool>, triangle: Triangle) -> bool {
    ||| changes[triangle.colors[0][0] as int]
    ||| changes[triangle.colors[0][1] as int]
    ||| changes[triangle.colors[1][0] as int]
    ||| changes[triangle.colors[1][1] as int]
    ||| changes[triangle.colors[2][0] as int]
    ||| changes[triangle.colors[2][1] as int]
}

/// Tells whether `candidate` is the name `name`.
fn name_is(candidate: &Option<String>, name: &str) -> (r: bool)
    ensures
        r == (name_view(*candidate) == Some(name@)),
{
    match candidate {
        None => false,
        Some(s) => {
            let held = s.as_str().as_bytes();
            let asked = name.as_bytes();
            proof {
                encode_utf8_decode_utf8(s@);
                encode_utf8_decode_utf8(name@);
            }
            if held.len() != asked.len() {
                assert(s@ != name@);
                return false;
            }
            let mut k: usize = 0;
            while k < held.len()
                invariant
                    name_view(*candidate) == Some(s@),
                    held@ == encode_utf8(s@),
                    asked@ == encode_utf8(name@),
                    held.len() == asked.len(),
                    k <= held.len(),
                    forall|j: int| 0 <= j < k ==> held@[j] == asked@[j],
                decreases held.len() - k,
            {
                if held[k] != asked[k] {
                    assert(held@[k as int] != asked@[k as int]);
                    assert(s@ != name@);
                    return false;
                }
                k += 1;
            }
            assert(held@ =~= asked@);
            true
        },
    }
}

/// A rendering session: a program, the stack of its values, and a flag for
/// each slot of the stack whose value has changed since the flags were cleared.
pub struct NaiveRenderer {
    program: SerializedProgram,
    stack: Vec<Couple>,
    stack_changes: Vec<bool>,
}

impl NaiveRenderer {
    /// True when the stack and the flags have a slot for each argument and
    /// each instruction of the program. Every session that `new` or `parse`
    /// gives is well formed, and every method keeps it so.
    pub closed spec fn wf(&self) -> bool {
        &&& self.stack.len() == self.program@.stack_size()
        &&& self.stack_changes.len() == self.stack.len()
    }

    /// The program of the session.
    pub closed spec fn program(&self) -> ProgramView {
        self.program@
    }

    /// The bytes of the file of the program.
    pub closed spec fn file(&self) -> Seq<u8> {
        self.program.file()
    }

    /// The values that the stack holds.
    pub closed spec fn values(&self) -> Seq<Couple> {
        self.stack@
    }

    /// The flag of each slot of the stack.
    pub closed spec fn changes(&self) -> Seq<bool> {
        self.stack_changes@
    }

    /// Opens a session on a program: each argument has its default value, the
    /// slots of the instructions hold (0, 0), and every flag is up.
    pub fn new(program: SerializedProgram) -> (r: ParsingResult<NaiveRenderer>)
        ensures
            r matches Ok(session) && {
                &&& session.wf()
                &&& session.file() == program.file()
                &&& session.program() == program@
                &&& session.values().len() == program@.stack_size()
                &&& session.changes().len() == program@.stack_size()
                &&& forall|i: int|
                    0 <= i < program@.arguments.len() ==> session.values()[i]
                        == program@.arguments[i].value
                &&& forall|i: int|
                    program@.arguments.len() <= i < program@.stack_size() ==> session.values()[i]
                        == (Couple { x: 0, y: 0 })
                &&& forall|i: int| 0 <= i < program@.stack_size() ==> session.changes()[i]
            },
    {
        let arguments: usize = program.arguments();
        let size: usize = program.stack_size();
        let mut stack: Vec<Couple> = Vec::new();
        let mut changes: Vec<bool> = Vec::new();
        let mut i: usize = 0;
        while i < size
            invariant
                i <= size,
                arguments == program@.arguments.len(),
                size == program@.stack_size(),
                stack.len() == i,
                changes.len() == i,
                forall|k: int|
                    0 <= k < i && k < arguments ==> stack[k] == program@.arguments[k].value,
                forall|k: int| arguments <= k < i ==> stack[k] == (Couple { x: 0, y: 0 }),
                forall|k: int| 0 <= k < i ==> changes[k],
            decreases size - i,
        {
            let value = if i < arguments {
                match program.argument(i) {
                    Ok(argument) => argument.value,
                    Err(_) => Couple::zero(),
                }
            } else {
                Couple::zero()
            };
            stack.push(value);
            changes.push(true);
            i += 1;
        }
        Ok(NaiveRenderer { program, stack, stack_changes: changes })
    }

    /// Opens a session on the program that the bytes of a file hold.
    pub fn parse(bytes: Vec<u8>) -> (r: ParsingResult<NaiveRenderer>)
        ensures
            r matches Ok(session) ==> {
                &&& verdict(bytes@) is None
                &&& session.wf()
                &&& session.file() == bytes@
                &&& session.program() == decoded(bytes@)
                &&& session.values().len() == decoded(bytes@).stack_size()
                &&& session.changes().len() == decoded(bytes@).stack_size()
                &&& forall|i: int|
                    0 <= i < decoded(bytes@).arguments.len() ==> session.values()[i] == decoded(
                        bytes@,
                    ).arguments[i].value
                &&& forall|i: int|
                    decoded(bytes@).arguments.len() <= i < decoded(bytes@).stack_size()
                        ==> session.values()[i] == (Couple { x: 0, y: 0 })
                &&& forall|i: int| 0 <= i < decoded(bytes@).stack_size() ==> session.changes()[i]
            },
            r matches Err(e) ==> verdict(bytes@) == Some(e),
    {
        match SerializedProgram::new(bytes) {
            Ok(program) => NaiveRenderer::new(program),
            Err(e) => Err(e),
        }
    }

    /// The program of the session.
    pub fn get_program(&self) -> (program: &SerializedProgram)
        ensures
            program@ == self.program(),
            program.file() == self.file(),
    {
        &self.program
    }

    /// The stack of the session.
    pub fn get_stack(&self) -> (stack: &Vec<Couple>)
        requires
            self.wf(),
        ensures
            stack@ == self.values(),
            stack.len() == self.program().stack_size(),
    {
        &self.stack
    }

    /// The flags of the session.
    pub fn get_changes(&self) -> (changes: &Vec<bool>)
        requires
            self.wf(),
        ensures
            changes@ == self.changes(),
            changes.len() == self.program().stack_size(),
    {
        &self.stack_changes
    }

    fn find_argument(&self, name: &str) -> (r: Option<usize>)
        requires
            self.wf(),
        ensures
            match r {
                Some(i) => named_at(argument_names(self.program()), name@, 0) == Some(i as int)
                    && i < self.program().arguments.len(),
                None => named_at(argument_names(self.program()), name@, 0) is None,
            },
    {
        let ghost names = argument_names(self.program@);
        let count: usize = self.program.arguments();
        let mut i: usize = 0;
        while i < count
            invariant
                i <= count,
                count == self.program@.arguments.len(),
                names == argument_names(self.program@),
                named_at(names, name@, 0) == named_at(names, name@, i as int),
            decreases count - i,
        {
            let found = match self.program.argument(i) {
                Ok(argument) => name_is(&argument.name, name),
                Err(_) => false,
            };
            if found {
                return Some(i);
            }
            i += 1;
        }
        None
    }

    /// The value of the first argument of that name, if there is one.
    pub fn get_argument(&self, name: &str) -> (r: ParsingResult<Option<Couple>>)
        requires
            self.wf(),
        ensures
            r matches Ok(value) && value == (match named_at(
                argument_names(self.program()),
                name@,
                0,
            ) {
                Some(i) => Some(self.values()[i]),
                None => None,
            }),
    {
        match self.find_argument(name) {
            Some(i) => Ok(Some(self.stack[i])),
            None => Ok(None),
        }
    }

    /// Gives the first argument of that name a value, and tells whether there
    /// is such an argument. A value that equals the one the argument has, as a
    /// pair of numbers, changes nothing; another is written and the flag of the
    /// slot is raised.
    pub fn set_argument(&mut self, name: &str, value: Couple) -> (r: ParsingResult<bool>)
        requires
            old(self).wf(),
        ensures
            final(self).wf(),
            final(self).file() == old(self).file(),
            final(self).program() == old(self).program(),
            r matches Ok(found) && (match named_at(argument_names(old(self).program()), name@, 0) {
                Some(i) => {
                    &&& found
                    &&& if value.differs(old(self).values()[i]) {
                        &&& final(self).values() == old(self).values().update(i, value)
                        &&& final(self).changes() == old(self).changes().update(i, true)
                    } else {
                        &&& final(self).values() == old(self).values()
                        &&& final(self).changes() == old(self).changes()
                    }
                },
                None => {
                    &&& !found
                    &&& final(self).values() == old(self).values()
                    &&& final(self).changes() == old(self).changes()
                },
            }),
    {
        match self.find_argument(name) {
            Some(i) => {
                if value.is_unlike(&self.stack[i]) {
                    self.stack_changes[i] = true;
                    self.stack[i] = value;
                }
                Ok(true)
            },
            None => Ok(false),
        }
    }

    /// The value at the address of the first output of that name, if there is one.
    pub fn output(&self, name: &str) -> (r: ParsingResult<Option<Couple>>)
        requires
            self.wf(),
        ensures
            r matches Ok(value) && value == (match named_at(
                output_names(self.program()),
                name@,
                0,
            ) {
                Some(i) => Some(self.values()[self.program().outputs[i].address as int]),
                None => None,
            }),
    {
        let ghost names = output_names(self.program@);
        let count: usize = self.program.outputs();
        let size: usize = self.program.stack_size();
        let mut i: usize = 0;
        while i < count
            invariant
                i <= count,
                count == self.program@.outputs.len(),
                size == self.program@.stack_size(),
                self.stack.len() == size,
                self.program@.indexed(),
                names == output_names(self.program@),
                named_at(names, name@, 0) == named_at(names, name@, i as int),
            decreases count - i,
        {
            match self.program.output(i) {
                Ok(output) => {
                    if name_is(&output.name, name) {
                        proof {
                            lemma_indexed_rows(self.program@, i as int);
                        }
                        return Ok(Some(self.stack[output.address as usize]));
                    }
                },
                Err(_) => {},
            }
            i += 1;
        }
        Ok(None)
    }

    /// Runs the tape of the program over the stack of the session, raising
    /// the flag of each slot whose new value is unlike the old one.
    /// `arithmetic` evaluates the operations that calculate.
    pub fn compute<F: Fn(Operation, Couple, Couple, Couple) -> Couple>(&mut self, arithmetic: F) -> (r:
        ParsingResult<()>)
        requires
            old(self).wf(),
            total(arithmetic),
        ensures
            final(self).wf(),
            r is Ok,
            final(self).file() == old(self).file(),
            final(self).program() == old(self).program(),
            computed(
                old(self).program().instructions,
                old(self).program().arguments.len() as int,
                old(self).values(),
                final(self).values(),
                old(self).program().instructions.len() as int,
                arithmetic,
            ),
            flagged(
                old(self).program().arguments.len() as int,
                old(self).values(),
                final(self).values(),
                old(self).program().instructions.len() as int,
                old(self).changes(),
                final(self).changes(),
            ),
    {
        self.program.run(&mut self.stack, &mut self.stack_changes, true, &arithmetic);
        Ok(())
    }

    /// Lowers every flag.
    pub fn clear_changes(&mut self)
        requires
            old(self).wf(),
        ensures
            final(self).wf(),
            final(self).file() == old(self).file(),
            final(self).program() == old(self).program(),
            final(self).values() == old(self).values(),
            final(self).changes().len() == old(self).changes().len(),
            forall|i: int| 0 <= i < final(self).changes().len() ==> !final(self).changes()[i],
    {
        let mut i: usize = 0;
        while i < self.stack_changes.len()
            invariant
                self.program == old(self).program,
                self.stack == old(self).stack,
                self.stack_changes.len() == old(self).stack_changes.len(),
                self.stack.len() == self.program@.stack_size(),
                self.stack_changes.len() == self.stack.len(),
                i <= self.stack_changes.len(),
                forall|k: int| 0 <= k < i ==> !self.stack_changes[k],
            decreases self.stack_changes.len() - i,
        {
            self.stack_changes[i] = false;
            i += 1;
        }
    }
}

/// True when every address that the step reads is below `limit`.
pub open spec fn step_reads_below(step: PathStep, limit: int) -> bool {
    match step {
        PathStep::Arc(arc) => arc.start_point < limit && arc.center < limit && arc.deltas < limit,
        PathStep::CubicCurve(curve) => curve.points[0] < limit && curve.points[1] < limit
            && curve.points[2] < limit && curve.points[3] < limit,
        PathStep::QuadraticCurve(curve) => curve.points[0] < limit && curve.points[1] < limit
            && curve.points[2] < limit,
        PathStep::Line(line) => line.points[0] < limit && line.points[1] < limit,
    }
}

/// A step of a program whose addresses and indices have their referents reads
/// only addresses of the stack.
pub proof fn lemma_step_reads_stack(program: ProgramView, p: int, k: int)
    requires
        program.indexed(),
        0 <= p < program.paths.len(),
        0 <= k < program.paths[p].len(),
    ensures
        step_reads_below(resolved(program, program.paths[p][k]), program.stack_size() as int),
{
    lemma_indexed_runs(program, p, k);
    lemma_indexed_rows(program, program.paths[p][k].1 as int);
}

/// Tells whether a flag is up for one of the addresses that the step reads.
fn step_is_touched(changes: &Vec<bool>, step: &PathStep) -> (r: bool)
    requires
        step_reads_below(*step, changes.len() as int),
    ensures
        r == step_touched(changes@, *step),
{
    match step {
        PathStep::Arc(arc) => changes[arc.start_point as usize] || changes[arc.center as usize]
            || changes[arc.deltas as usize],
        PathStep::CubicCurve(curve) => changes[curve.points[0] as usize]
            || changes[curve.points[1] as usize] || changes[curve.points[2] as usize]
            || changes[curve.points[3] as usize],
        PathStep::QuadraticCurve(curve) => changes[curve.points[0] as usize]
            || changes[curve.points[1] as usize] || changes[curve.points[2] as usize],
        PathStep::Line(line) => changes[line.points[0] as usize] || changes[line.points[1] as usize],
    }
}

impl NaiveRenderer {
    /// Tells whether the flattened form of path `p` is stale: whether a flag
    /// is up for one of the addresses that one of its steps reads.
    pub fn path_changed(&self, p: usize) -> (r: ParsingResult<bool>)
        requires
            self.wf(),
        ensures
            match r {
                Ok(stale) => p < self.program().paths.len() && stale == path_touched(
                    self.changes(),
                    resolved_path(self.program(), self.program().paths[p as int]),
                ),
                Err(e) => p >= self.program().paths.len() && e == ParsingError::InvalidIndex,
            },
    {
        let mut steps = match self.program.path(p) {
            Ok(steps) => steps,
            Err(e) => {
                return Err(e);
            },
        };
        let size: usize = self.program.stack_size();
        let ghost program = self.program@;
        let ghost all = resolved_path(program, program.paths[p as int]);
        let ghost mut k: int = 0;
        loop
            invariant
                self.wf(),
                program == self.program@,
                program.indexed(),
                size == program.stack_size(),
                p < program.paths.len(),
                all == resolved_path(program, program.paths[p as int]),
                0 <= k <= all.len(),
                steps@ == all.subrange(k, all.len() as int),
                forall|j: int| 0 <= j < k ==> !step_touched(self.stack_changes@, #[trigger] all[j]),
            decreases all.len() - k,
        {
            match steps.next() {
                None => {
                    return Ok(false);
                },
                Some(Ok(step)) => {
                    proof {
                        assert(step == all[k]);
                        lemma_step_reads_stack(program, p as int, k);
                    }
                    if step_is_touched(&self.stack_changes, &step) {
                        return Ok(true);
                    }
                    proof {
                        assert(all.subrange(k, all.len() as int).drop_first() =~= all.subrange(
                            k + 1,
                            all.len() as int,
                        ));
                        k = k + 1;
                    }
                },
                Some(Err(e)) => {
                    return Err(e);
                },
            }
        }
    }

    /// Tells whether the cached points and the cached colors of triangle `t`
    /// are stale: whether a flag is up for one of its three points, and
    /// whether one is up for one of its six color addresses.
    pub fn triangle_changed(&self, t: usize) -> (r: ParsingResult<(bool, bool)>)
        requires
            self.wf(),
        ensures
            match r {
                Ok((points, colors)) => {
                    &&& t < self.program().triangles.len()
                    &&& points == points_touched(
                        self.changes(),
                        self.program().triangles[t as int],
                    )
                    &&& colors == colors_touched(
                        self.changes(),
                        self.program().triangles[t as int],
                    )
                },
                Err(e) => t >= self.program().triangles.len() && e == ParsingError::InvalidIndex,
            },
    {
        let triangle = match self.program.triangle(t) {
            Ok(triangle) => triangle,
            Err(e) => {
                return Err(e);
            },
        };
        let flags = &self.stack_changes;
        let points: bool = flags[triangle.points[0] as usize] || flags[triangle.points[1] as usize]
            || flags[triangle.points[2] as usize];
        let colors: bool = flags[triangle.colors[0][0] as usize]
            || flags[triangle.colors[0][1] as usize] || flags[triangle.colors[1][0] as usize]
            || flags[triangle.colors[1][1] as usize] || flags[triangle.colors[2][0] as usize]
            || flags[triangle.colors[2][1] as usize];
        Ok((points, colors))
    }
}

/// The addresses that a step reads.
pub open spec fn step_addresses(step: PathStep) -> Seq<u32> {
    match step {
        PathStep::Arc(arc) => seq![arc.start_point, arc.center, arc.deltas],
        PathStep::CubicCurve(curve) => seq![
            curve.points[0],
            curve.points[1],
            curve.points[2],
            curve.points[3],
        ],
        PathStep::QuadraticCurve(curve) => seq![curve.points[0], curve.points[1], curve.points[2]],
        PathStep::Line(line) => seq![line.points[0], line.points[1]],
    }
}

/// The addresses that a triangle reads: its points, then its colors.
pub open spec fn triangle_addresses(triangle: Triangle) -> Seq<u32> {
    seq![
        triangle.points[0],
        triangle.points[1],
        triangle.points[2],
        triangle.colors[0][0],
        triangle.colors[0][1],
        triangle.colors[1][0],
        triangle.colors[1][1],
        triangle.colors[2][0],
        triangle.colors[2][1],
    ]
}

/// What a path that is not stale reads has not changed: where no flag is up
/// after a run for any address that a step of the path reads, every such
/// address holds what it held before the run, bit for bit or as an equal pair
/// of numbers.
pub proof fn lemma_fresh_path_reads_unchanged<F: Fn(Operation, Couple, Couple, Couple) -> Couple>(
    program: ProgramView,
    before: Seq<Couple>,
    after: Seq<Couple>,
    flags: Seq<bool>,
    raised: Seq<bool>,
    arithmetic: F,
    path: Seq<PathStep>,
    k: int,
    j: int,
)
    requires
        computed(
            program.instructions,
            program.arguments.len() as int,
            before,
            after,
            program.instructions.len() as int,
            arithmetic,
        ),
        flagged(
            program.arguments.len() as int,
            before,
            after,
            program.instructions.len() as int,
            flags,
            raised,
        ),
        raised.len() == after.len(),
        !path_touched(raised, path),
        0 <= k < path.len(),
        step_reads_below(path[k], after.len() as int),
        0 <= j < step_addresses(path[k]).len(),
    ensures
        ({
            let address = step_addresses(path[k])[j] as int;
            after[address] == before[address] || !after[address].differs(before[address])
        }),
{
    assert(!step_touched(raised, path[k]));
    let address = step_addresses(path[k])[j] as int;
    assert(!raised[address]);
}

/// What a triangle that is not stale reads has not changed: where no flag
/// is up after a run for any of its points and colors, each of these
/// addresses holds what it held before the run, bit for bit or as an equal
/// pair of numbers.
pub proof fn lemma_fresh_triangle_reads_unchanged<F: Fn(Operation, Couple, Couple, Couple) -> Couple>(
    program: ProgramView,
    before: Seq<Couple>,
    after: Seq<Couple>,
    flags: Seq<bool>,
    raised: Seq<bool>,
    arithmetic: F,
    triangle: Triangle,
    j: int,
)
    requires
        computed(
            program.instructions,
            program.arguments.len() as int,
            before,
            after,
            program.instructions.len() as int,
            arithmetic,
        ),
        flagged(
            program.arguments.len() as int,
            before,
            after,
            program.instructions.len() as int,
            flags,
            raised,
        ),
        raised.len() == after.len(),
        !points_touched(raised, triangle),
        !colors_touched(raised, triangle),
        0 <= j < 9,
        triangle_addresses(triangle)[j] < after.len(),
    ensures
        ({
            let address = triangle_addresses(triangle)[j] as int;
            after[address] == before[address] || !after[address].differs(before[address])
        }),
{
    let address = triangle_addresses(triangle)[j] as int;
    assert(!raised[address]);
}

} // verus!
