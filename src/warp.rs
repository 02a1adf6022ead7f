use vstd::prelude::*;
use vstd::arithmetic::div_mod::lemma_fundamental_div_mod_converse_div;
use crate::raster::{color_rows, depth_rows, ColorImage, DepthMap, Rgba};

verus! {

/// How far a pixel with depth sample `d` moves right: `floor(magnitude * d / 255)`.
pub open spec fn shift_of(magnitude: u32, d: u8) -> nat {
    (magnitude as nat * d as nat) / 255
}

/// The column that source column `j` lands on in a row of width `w`,
/// clamped to the row's right edge.
pub open spec fn landing(w: int, magnitude: u32, d: u8, j: int) -> int {
    let t = j + shift_of(magnitude, d);
    if t < w - 1 {
        t
    } else {
        w - 1
    }
}

/// The pixel written at column `c` by the source columns `j..`, if any: the
/// lowest such source column, since columns are written right to left and the
/// last write wins.
pub open spec fn placed_from(base: Seq<Rgba>, depth: Seq<u8>, magnitude: u32, c: int, j: int) -> Option<Rgba>
    decreases base.len() - j,
{
    if j < 0 || j >= base.len() {
        None
    } else if landing(base.len() as int, magnitude, depth[j], j) == c {
        Some(base[j])
    } else {
        placed_from(base, depth, magnitude, c, j + 1)
    }
}

/// The pixel written at column `c` by the displacement pass of a row.
pub open spec fn placed(base: Seq<Rgba>, depth: Seq<u8>, magnitude: u32, c: int) -> Option<Rgba> {
    placed_from(base, depth, magnitude, c, 0)
}

/// The final pixel at column `c`: the displaced pixel if one landed there, else
/// the final pixel to its left, else the row's first source pixel.
pub open spec fn warped_px(base: Seq<Rgba>, depth: Seq<u8>, magnitude: u32, c: int) -> Rgba
    decreases c,
{
    match placed(base, depth, magnitude, c) {
        Some(p) => p,
        None => if c <= 0 {
            base[0]
        } else {
            warped_px(base, depth, magnitude, c - 1)
        },
    }
}

/// One row of the synthesized view.
pub open spec fn warped_row(base: Seq<Rgba>, depth: Seq<u8>, magnitude: u32) -> Seq<Rgba> {
    Seq::new(base.len(), |c: int| warped_px(base, depth, magnitude, c))
}

/// The synthesized view of a whole image, row by row.
pub open spec fn warped(base: Seq<Seq<Rgba>>, depth: Seq<Seq<u8>>, magnitude: u32) -> Seq<Seq<Rgba>> {
    Seq::new(base.len(), |y: int| warped_row(base[y], depth[y], magnitude))
}

/// The scan of source columns from `j` finds the first one landing on `c`.
proof fn lemma_placed_first(base: Seq<Rgba>, depth: Seq<u8>, magnitude: u32, c: int, j: int, k: int)
    requires
        0 <= j <= k < base.len(),
        landing(base.len() as int, magnitude, depth[k], k) == c,
        forall|x: int| j <= x < k ==> landing(base.len() as int, magnitude, depth[x], x) != c,
    ensures
        placed_from(base, depth, magnitude, c, j) == Some(base[k]),
    decreases k - j,
{
    if j < k {
        lemma_placed_first(base, depth, magnitude, c, j + 1, k);
    }
}

/// The scan of source columns from `j` finds nothing where none lands on `c`.
proof fn lemma_placed_none(base: Seq<Rgba>, depth: Seq<u8>, magnitude: u32, c: int, j: int)
    requires
        0 <= j <= base.len(),
        forall|x: int| j <= x < base.len() ==> landing(base.len() as int, magnitude, depth[x], x) != c,
    ensures
        placed_from(base, depth, magnitude, c, j) is None,
    decreases base.len() - j,
{
    if j < base.len() {
        lemma_placed_none(base, depth, magnitude, c, j + 1);
    }
}

/// A displaced pixel is a pixel of its source row.
proof fn lemma_placed_from_row(base: Seq<Rgba>, depth: Seq<u8>, magnitude: u32, c: int, j: int)
    requires
        0 <= j,
    ensures
        placed_from(base, depth, magnitude, c, j) matches Some(p) ==> exists|k: int| 0 <= k < base.len() && base[k] == p,
    decreases base.len() - j,
{
    if j < base.len() && landing(base.len() as int, magnitude, depth[j], j) != c {
        lemma_placed_from_row(base, depth, magnitude, c, j + 1);
    }
}

/// `p` is one of the pixels of `row`.
pub open spec fn in_row(row: Seq<Rgba>, p: Rgba) -> bool {
    exists|k: int| 0 <= k < row.len() && row[k] == p
}

/// Every pixel of a warped row is a pixel of the base row.
proof fn lemma_row_leaves_no_hole(base: Seq<Rgba>, depth: Seq<u8>, magnitude: u32, c: int)
    requires
        base.len() > 0,
        0 <= c < base.len(),
    ensures
        in_row(base, warped_px(base, depth, magnitude, c)),
    decreases c,
{
    lemma_placed_from_row(base, depth, magnitude, c, 0);
    if placed(base, depth, magnitude, c) is None {
        if c <= 0 {
            assert(base[0] == warped_px(base, depth, magnitude, c));
            assert(in_row(base, base[0]));
        } else {
            lemma_row_leaves_no_hole(base, depth, magnitude, c - 1);
        }
    }
}

/// A row of zero depth is left as it was.
proof fn lemma_flat_row(base: Seq<Rgba>, depth: Seq<u8>, magnitude: u32)
    requires
        depth.len() == base.len(),
        forall|j: int| 0 <= j < depth.len() ==> depth[j] == 0,
    ensures
        warped_row(base, depth, magnitude) == base,
{
    let w = base.len() as int;
    assert forall|c: int| 0 <= c < w implies #[trigger] warped_px(base, depth, magnitude, c) == base[c] by {
        assert forall|x: int| 0 <= x < c implies landing(w, magnitude, depth[x], x) != c by {
            assert(shift_of(magnitude, depth[x]) == 0);
        }
        assert(shift_of(magnitude, depth[c]) == 0);
        lemma_placed_first(base, depth, magnitude, c, 0, c);
    }
    assert(warped_row(base, depth, magnitude) =~= base);
}

/// A row at full depth moves right by the whole magnitude.
proof fn lemma_full_depth_row(base: Seq<Rgba>, depth: Seq<u8>, magnitude: u32)
    requires
        depth.len() == base.len(),
        forall|j: int| 0 <= j < depth.len() ==> depth[j] == 255,
    ensures
        forall|c: int| 0 <= c < base.len() ==> #[trigger] warped_row(base, depth, magnitude)[c] == if c >= magnitude {
            base[c - magnitude]
        } else {
            base[0]
        },
{
    let w = base.len() as int;
    let m = magnitude as int;
    assert forall|j: int| 0 <= j < w implies #[trigger] landing(w, magnitude, depth[j], j) == if j + m < w - 1 {
        j + m
    } else {
        w - 1
    } by {
        assert(shift_of(magnitude, depth[j]) == m) by {
            lemma_fundamental_div_mod_converse_div(m * 255, 255, m, 0);
        }
    }
    assert forall|c: int| 0 <= c < w implies #[trigger] warped_px(base, depth, magnitude, c) == if c >= m {
        base[c - m]
    } else {
        base[0]
    } by {
        lemma_full_depth_px(base, depth, magnitude, c);
    }
}

proof fn lemma_full_depth_px(base: Seq<Rgba>, depth: Seq<u8>, magnitude: u32, c: int)
    requires
        depth.len() == base.len(),
        0 <= c < base.len(),
        forall|j: int| 0 <= j < base.len() ==> #[trigger] landing(base.len() as int, magnitude, depth[j], j) == if j + magnitude < base.len() - 1 {
            j + magnitude
        } else {
            base.len() - 1
        },
    ensures
        warped_px(base, depth, magnitude, c) == if c >= magnitude {
            base[c - magnitude]
        } else {
            base[0]
        },
    decreases c,
{
    let w = base.len() as int;
    let m = magnitude as int;
    if c >= m {
        let k = c - m;
        assert forall|x: int| 0 <= x < k implies landing(w, magnitude, depth[x], x) != c by {}
        lemma_placed_first(base, depth, magnitude, c, 0, k);
    } else if c == w - 1 {
        assert(landing(w, magnitude, depth[0], 0) == c);
        lemma_placed_first(base, depth, magnitude, c, 0, 0);
    } else {
        assert forall|x: int| 0 <= x < w implies landing(w, magnitude, depth[x], x) != c by {}
        lemma_placed_none(base, depth, magnitude, c, 0);
        if c > 0 {
            lemma_full_depth_px(base, depth, magnitude, c - 1);
        }
    }
}

/// Every pixel of the warped image is a pixel of the same row of the base
/// image: the displacement pass and the hole filling together leave no
/// column unwritten.
pub proof fn lemma_warp_leaves_no_hole(base: Seq<Seq<Rgba>>, depth: Seq<Seq<u8>>, magnitude: u32)
    requires
        depth.len() == base.len(),
        forall|y: int| 0 <= y < base.len() ==> (#[trigger] depth[y]).len() == base[y].len(),
    ensures
        forall|y: int, c: int|
            0 <= y < base.len() && 0 <= c < base[y].len() ==> in_row(base[y], #[trigger] warped(base, depth, magnitude)[y][c]),
{
    assert forall|y: int, c: int| 0 <= y < base.len() && 0 <= c < base[y].len() implies in_row(
        base[y],
        #[trigger] warped(base, depth, magnitude)[y][c],
    ) by {
        lemma_row_leaves_no_hole(base[y], depth[y], magnitude, c);
        assert(warped(base, depth, magnitude)[y][c] == warped_px(base[y], depth[y], magnitude, c));
    }
}

/// A depth map that is zero everywhere produces the base image unchanged.
pub proof fn lemma_flat_depth_is_identity(base: Seq<Seq<Rgba>>, depth: Seq<Seq<u8>>, magnitude: u32)
    requires
        depth.len() == base.len(),
        forall|y: int| 0 <= y < base.len() ==> (#[trigger] depth[y]).len() == base[y].len(),
        forall|y: int, j: int| 0 <= y < depth.len() && 0 <= j < depth[y].len() ==> #[trigger] depth[y][j] == 0,
    ensures
        warped(base, depth, magnitude) == base,
{
    assert forall|y: int| 0 <= y < base.len() implies #[trigger] warped(base, depth, magnitude)[y] == base[y] by {
        assert forall|j: int| 0 <= j < depth[y].len() implies depth[y][j] == 0 by {}
        lemma_flat_row(base[y], depth[y], magnitude);
    }
    assert(warped(base, depth, magnitude) =~= base);
}

/// A depth map at full intensity everywhere moves every pixel right by the
/// whole magnitude, clamped at the right edge, and the columns left of the
/// magnitude repeat the first pixel of their row.
pub proof fn lemma_full_depth_shifts(base: Seq<Seq<Rgba>>, depth: Seq<Seq<u8>>, magnitude: u32)
    requires
        depth.len() == base.len(),
        forall|y: int| 0 <= y < base.len() ==> (#[trigger] depth[y]).len() == base[y].len(),
        forall|y: int, j: int| 0 <= y < depth.len() && 0 <= j < depth[y].len() ==> #[trigger] depth[y][j] == 255,
    ensures
        forall|y: int, c: int|
            0 <= y < base.len() && 0 <= c < base[y].len() ==> #[trigger] warped(base, depth, magnitude)[y][c]
                == if c >= magnitude {
                base[y][c - magnitude]
            } else {
                base[y][0]
            },
{
    assert forall|y: int, c: int| 0 <= y < base.len() && 0 <= c < base[y].len() implies #[trigger] warped(
        base,
        depth,
        magnitude,
    )[y][c] == if c >= magnitude {
        base[y][c - magnitude]
    } else {
        base[y][0]
    } by {
        assert forall|j: int| 0 <= j < depth[y].len() implies depth[y][j] == 255 by {}
        lemma_full_depth_row(base[y], depth[y], magnitude);
    }
}

/// Destination column of source column `j`, computed without overflow.
fn landing_column(width: u32, magnitude: u32, d: u8, j: u32) -> (r: u32)
    requires
        j < width,
    ensures
        r as int == landing(width as int, magnitude, d, j as int),
        r < width,
{
    assert((magnitude as nat) * (d as nat) <= 0xffff_ffffu64 * 255) by (nonlinear_arith)
        requires
            magnitude <= 0xffff_ffffu32,
            d <= 255u8,
    ;
    let shift: u64 = (magnitude as u64) * (d as u64) / 255;
    let t: u64 = j as u64 + shift;
    if t < (width - 1) as u64 {
        t as u32
    } else {
        width - 1
    }
}

/// Synthesizes the view of a camera displaced horizontally from the base
/// image's: each pixel moves right by its depth-scaled shift (source columns
/// taken right to left, so the leftmost source wins a collision), and each
/// column that nothing landed on repeats the final pixel to its left.
pub fn infer_left_channel(base: &ColorImage, map: &DepthMap, effect_size: u32) -> (out: ColorImage)
    requires
        base.width() == map.width(),
        base.height() == map.height(),
    ensures
        out.wf(),
        out.width() == base.width(),
        out.height() == base.height(),
        color_rows(out) == warped(color_rows(*base), depth_rows(*map), effect_size),
{
    let (width, height) = base.dims();
    let _ = map.dims();
    let ghost b = color_rows(*base);
    let ghost dm = depth_rows(*map);
    let mut output = ColorImage::blank(width, height);
    let mut present: Vec<bool> = Vec::new();
    let mut k: u32 = 0;
    while k < width
        invariant
            k <= width,
            present@.len() == k,
        decreases width - k,
    {
        present.push(false);
        k = k + 1;
    }
    let mut i: u32 = 0;
    while i < height
        invariant
            i <= height,
            base.wf(),
            map.wf(),
            b == color_rows(*base),
            dm == depth_rows(*map),
            width == base.width(),
            width == map.width(),
            height == map.height(),
            height == base.height(),
            output.wf(),
            output.width() == width,
            output.height() == height,
            present@.len() == width,
            forall|r: int| 0 <= r < i ==> #[trigger] color_rows(output)[r] == warped_row(b[r], dm[r], effect_size),
        decreases height - i,
    {
        let ghost row = b[i as int];
        let ghost drow = dm[i as int];
        let mut k: u32 = 0;
        while k < width
            invariant
                k <= width,
                present@.len() == width,
                forall|c: int| 0 <= c < k ==> !(#[trigger] present@[c]),
            decreases width - k,
        {
            present.set(k as usize, false);
            k = k + 1;
        }
        let mut j: u32 = width;
        while j > 0
            invariant
                j <= width,
                i < height,
                base.wf(),
                map.wf(),
                b == color_rows(*base),
                dm == depth_rows(*map),
                row == b[i as int],
                drow == dm[i as int],
                width == base.width(),
                width == map.width(),
                height == map.height(),
                height == base.height(),
                output.wf(),
                output.width() == width,
                output.height() == height,
                present@.len() == width,
                forall|r: int| 0 <= r < i ==> #[trigger] color_rows(output)[r] == warped_row(b[r], dm[r], effect_size),
                forall|c: int| 0 <= c < width ==> (#[trigger] present@[c] ==>
                    placed_from(row, drow, effect_size, c, j as int) == Some(color_rows(output)[i as int][c])),
                forall|c: int| 0 <= c < width ==> (!#[trigger] present@[c] ==>
                    placed_from(row, drow, effect_size, c, j as int) is None),
            decreases j,
        {
            j = j - 1;
            let d = map.sample(j, i);
            let j2 = landing_column(width, effect_size, d, j);
            let p = base.pixel(j, i);
            let ghost before = color_rows(output);
            output.set_pixel(j2, i, p);
            present.set(j2 as usize, true);
            assert forall|c: int| 0 <= c < width implies
                (#[trigger] present@[c] ==> placed_from(row, drow, effect_size, c, j as int) == Some(color_rows(output)[i as int][c]))
                && (!present@[c] ==> placed_from(row, drow, effect_size, c, j as int) is None) by {
                if c != j2 as int {
                    assert(color_rows(output)[i as int][c] == before[i as int][c]);
                }
            }
            assert forall|r: int| 0 <= r < i implies #[trigger] color_rows(output)[r] == warped_row(b[r], dm[r], effect_size) by {
                assert(color_rows(output)[r] == before[r]);
            }
        }
        if width > 0 {
            let mut last = base.pixel(0, i);
            let mut c: u32 = 0;
            while c < width
                invariant
                    0 < width,
                    c <= width,
                    i < height,
                    base.wf(),
                    b == color_rows(*base),
                    row == b[i as int],
                    drow == dm[i as int],
                    width == base.width(),
                    width == map.width(),
                    height == map.height(),
                    height == base.height(),
                    output.wf(),
                    output.width() == width,
                    output.height() == height,
                    present@.len() == width,
                    forall|r: int| 0 <= r < i ==> #[trigger] color_rows(output)[r] == warped_row(b[r], dm[r], effect_size),
                    forall|x: int| 0 <= x < c ==> #[trigger] color_rows(output)[i as int][x] == warped_px(row, drow, effect_size, x),
                    forall|x: int| c <= x < width ==> (#[trigger] present@[x] ==>
                        placed(row, drow, effect_size, x) == Some(color_rows(output)[i as int][x])),
                    forall|x: int| c <= x < width ==> (!#[trigger] present@[x] ==>
                        placed(row, drow, effect_size, x) is None),
                    c == 0 ==> last == row[0],
                    c > 0 ==> last == warped_px(row, drow, effect_size, c - 1),
                decreases width - c,
            {
                let ghost before = color_rows(output);
                if present[c as usize] {
                    last = output.pixel(c, i);
                } else {
                    output.set_pixel(c, i, last);
                }
                assert forall|x: int| 0 <= x < c + 1 implies #[trigger] color_rows(output)[i as int][x] == warped_px(row, drow, effect_size, x) by {
                    if x < c {
                        assert(color_rows(output)[i as int][x] == before[i as int][x]);
                    }
                }
                assert forall|x: int| c + 1 <= x < width && #[trigger] present@[x] implies
                    placed(row, drow, effect_size, x) == Some(color_rows(output)[i as int][x]) by {
                    assert(color_rows(output)[i as int][x] == before[i as int][x]);
                }
                assert forall|r: int| 0 <= r < i implies #[trigger] color_rows(output)[r] == warped_row(b[r], dm[r], effect_size) by {
                    assert(color_rows(output)[r] == before[r]);
                }
                c = c + 1;
            }
        }
        assert(color_rows(output)[i as int] =~= warped_row(row, drow, effect_size));
        i = i + 1;
    }
    assert(color_rows(output) =~= warped(b, dm, effect_size));
    output
}

} // verus!
