use vstd::prelude::*;
use crate::raster::{color_rows, ColorImage, DepthMap, Rgba};

verus! {

/// Where pixel `(x, y)` starts in a row-major buffer `w` pixels wide with
/// `channels` bytes per pixel.
pub open spec fn offset(w: nat, channels: nat, x: int, y: int) -> int {
    channels * (y * w + x)
}

proof fn lemma_offset_bounds(w: nat, h: nat, channels: nat, x: int, y: int)
    requires
        0 <= x < w,
        0 <= y < h,
    ensures
        0 <= offset(w, channels, x, y),
        offset(w, channels, x, y) + channels <= channels * w * h,
        offset(w, channels, x, y) == channels * (y * w) + channels * x,
        offset(w, channels, x + 1, y) == offset(w, channels, x, y) + channels,
        offset(w, channels, 0, y + 1) == offset(w, channels, 0, y) + channels * w,
{
    assert(y * w + x + 1 <= h * w) by (nonlinear_arith)
        requires
            0 <= x < w,
            0 <= y < h,
    ;
    assert(channels * (y * w + x) + channels == channels * (y * w + x + 1)) by (nonlinear_arith);
    assert(channels * (y * w + x + 1) <= channels * (h * w)) by (nonlinear_arith)
        requires
            y * w + x + 1 <= h * w,
    ;
    assert(channels * (h * w) == channels * w * h) by (nonlinear_arith);
    assert(channels * (y * w + x) == channels * (y * w) + channels * x) by (nonlinear_arith);
    assert(0 <= channels * (y * w + x)) by (nonlinear_arith)
        requires
            0 <= x,
            0 <= y,
    ;
    assert(channels * ((y + 1) * w + 0) == channels * (y * w + 0) + channels * w) by (nonlinear_arith);
}

impl ColorImage {
    /// Width and height.
    pub fn dimensions(&self) -> (r: (u32, u32))
        ensures
            r.0 == self.width(),
            r.1 == self.height(),
    {
        self.dims()
    }

    /// The pixel at column `x` of row `y`, or `None` outside the image.
    pub fn get_pixel(&self, x: u32, y: u32) -> (r: Option<Rgba>)
        ensures
            r is Some <==> x < self.width() && y < self.height(),
            r matches Some(p) ==> p == self.px(x as int, y as int),
    {
        let (w, h) = self.dims();
        if x < w && y < h {
            Some(self.pixel(x, y))
        } else {
            None
        }
    }

    /// An image of `width` by `height` pixels from their RGBA bytes, row by
    /// row; `None` unless `data` holds exactly that many bytes and the bytes
    /// of one row fit in memory.
    pub fn from_raw(width: u32, height: u32, data: &[u8]) -> (r: Option<ColorImage>)
        ensures
            r is Some <==> data@.len() == 4 * (width as nat) * (height as nat) && 4 * (width as nat)
                <= usize::MAX,
            r matches Some(img) ==> {
                &&& img.wf()
                &&& img.width() == width
                &&& img.height() == height
                &&& forall|x: int, y: int|
                    0 <= x < width && 0 <= y < height ==> (#[trigger] img.px(x, y))@ == data@.subrange(
                        offset(width as nat, 4, x, y),
                        offset(width as nat, 4, x, y) + 4,
                    )
            },
    {
        assert((width as nat) * (height as nat) <= 0xffff_ffffnat * 0xffff_ffffnat) by (nonlinear_arith)
            requires
                width <= 0xffff_ffffu32,
                height <= 0xffff_ffffu32,
        ;
        let total: u128 = 4 * ((width as u128) * (height as u128));
        assert(total == 4 * (width as nat) * (height as nat)) by (nonlinear_arith)
            requires
                total == 4 * ((width as nat) * (height as nat)),
        ;
        if data.len() as u128 != total || 4 * (width as u128) > usize::MAX as u128 {
            return None;
        }
        let ghost w = width as nat;
        let ghost h = height as nat;
        let mut img = ColorImage::blank(width, height);
        let mut y: u32 = 0;
        let mut start: usize = 0;
        while y < height
            invariant
                y <= height,
                data@.len() == 4 * w * h,
                w == width,
                h == height,
                img.wf(),
                img.width() == w,
                img.height() == h,
                y < height ==> start == offset(w, 4, 0, y as int),
                forall|a: int, b: int|
                    0 <= a < w && 0 <= b < y ==> (#[trigger] img.px(a, b))@ == data@.subrange(
                        offset(w, 4, a, b),
                        offset(w, 4, a, b) + 4,
                    ),
            decreases height - y,
        {
            let mut x: u32 = 0;
            let mut i: usize = start;
            while x < width
                invariant
                    x <= width,
                    y < height,
                    data@.len() == 4 * w * h,
                    w == width,
                    h == height,
                    img.wf(),
                    img.width() == w,
                    img.height() == h,
                    x < width ==> i == offset(w, 4, x as int, y as int),
                    x == width ==> y + 1 < height ==> i == offset(w, 4, 0, y + 1),
                    forall|a: int, b: int|
                        (0 <= a < w && 0 <= b < y) || (0 <= a < x && b == y) ==> (#[trigger] img.px(a, b))@
                            == data@.subrange(offset(w, 4, a, b), offset(w, 4, a, b) + 4),
                decreases width - x,
            {
                proof {
                    lemma_offset_bounds(w, h, 4, x as int, y as int);
                    if x + 1 == width && y + 1 < height {
                        lemma_offset_bounds(w, h, 4, 0, y as int);
                        lemma_offset_bounds(w, h, 4, 0, y + 1);
                        assert(offset(w, 4, x as int, y as int) + 4 == offset(w, 4, 0, y + 1)) by (nonlinear_arith)
                            requires
                                offset(w, 4, x as int, y as int) == 4 * (y * w) + 4 * x,
                                offset(w, 4, 0, y + 1) == offset(w, 4, 0, y as int) + 4 * w,
                                offset(w, 4, 0, y as int) == 4 * (y * w) + 4 * 0,
                                x + 1 == w,
                        ;
                    }
                }
                let p: Rgba = [data[i], data[i + 1], data[i + 2], data[i + 3]];
                let ghost before = img;
                img.set_pixel(x, y, p);
                proof {
                    assert(p@ =~= data@.subrange(i as int, i + 4));
                    assert forall|a: int, b: int|
                        (0 <= a < w && 0 <= b < y) || (0 <= a < x + 1 && b == y) implies (#[trigger] img.px(a, b))@
                            == data@.subrange(offset(w, 4, a, b), offset(w, 4, a, b) + 4) by {
                        if !(a == x && b == y) {
                            assert(img.px(a, b) == before.px(a, b));
                        }
                    }
                    if x + 1 < width {
                        lemma_offset_bounds(w, h, 4, x + 1, y as int);
                    }
                }
                i = i + 4;
                x = x + 1;
            }
            start = i;
            y = y + 1;
        }
        Some(img)
    }

    /// The RGBA bytes of every pixel, row by row.
    pub fn to_raw(&self) -> (r: Vec<u8>)
        ensures
            r@.len() == 4 * self.width() * self.height(),
            forall|x: int, y: int|
                0 <= x < self.width() && 0 <= y < self.height() ==> r@.subrange(
                    offset(self.width(), 4, x, y),
                    offset(self.width(), 4, x, y) + 4,
                ) == (#[trigger] self.px(x, y))@,
    {
        let (width, height) = self.dims();
        let ghost w = width as nat;
        let ghost h = height as nat;
        let mut out: Vec<u8> = Vec::new();
        let mut y: u32 = 0;
        while y < height
            invariant
                y <= height,
                w == width,
                h == height,
                w == self.width(),
                h == self.height(),
                4 * w * h <= usize::MAX,
                forall|b: int| 0 <= b < h ==> (#[trigger] color_rows(*self)[b]).len() == w,
                out@.len() == 4 * (y * w),
                forall|a: int, b: int|
                    0 <= a < w && 0 <= b < y ==> out@.subrange(offset(w, 4, a, b), offset(w, 4, a, b) + 4)
                        == (#[trigger] self.px(a, b))@,
            decreases height - y,
        {
            let mut x: u32 = 0;
            while x < width
                invariant
                    x <= width,
                    y < height,
                    w == width,
                    h == height,
                    w == self.width(),
                    h == self.height(),
                    4 * w * h <= usize::MAX,
                    forall|b: int| 0 <= b < h ==> (#[trigger] color_rows(*self)[b]).len() == w,
                    out@.len() == 4 * (y * w + x),
                    forall|a: int, b: int|
                        (0 <= a < w && 0 <= b < y) || (0 <= a < x && b == y) ==> out@.subrange(
                            offset(w, 4, a, b),
                            offset(w, 4, a, b) + 4,
                        ) == (#[trigger] self.px(a, b))@,
                decreases width - x,
            {
                proof {
                    lemma_offset_bounds(w, h, 4, x as int, y as int);
                }
                let p = self.pixel(x, y);
                let ghost before = out@;
                out.push(p[0]);
                out.push(p[1]);
                out.push(p[2]);
                out.push(p[3]);
                proof {
                    assert(out@.subrange(offset(w, 4, x as int, y as int), offset(w, 4, x as int, y as int) + 4) =~= p@);
                    assert forall|a: int, b: int|
                        (0 <= a < w && 0 <= b < y) || (0 <= a < x + 1 && b == y) implies out@.subrange(
                            offset(w, 4, a, b),
                            offset(w, 4, a, b) + 4,
                        ) == (#[trigger] self.px(a, b))@ by {
                        if !(a == x && b == y) {
                            lemma_offset_bounds(w, h, 4, a, b);
                            assert(offset(w, 4, a, b) + 4 <= offset(w, 4, x as int, y as int)) by (nonlinear_arith)
                                requires
                                    (0 <= a < w && 0 <= b < y) || (0 <= a < x && b == y),
                                    offset(w, 4, a, b) == 4 * (b * w) + 4 * a,
                                    offset(w, 4, x as int, y as int) == 4 * (y * w) + 4 * x,
                                    x < w,
                            ;
                            assert(out@.subrange(offset(w, 4, a, b), offset(w, 4, a, b) + 4) =~= before.subrange(
                                offset(w, 4, a, b),
                                offset(w, 4, a, b) + 4,
                            ));
                        }
                    }
                    assert(4 * (y * w + x) + 4 == 4 * (y * w + (x + 1))) by (nonlinear_arith);
                }
                x = x + 1;
            }
            assert(4 * (y * w + w) == 4 * ((y + 1) * w)) by (nonlinear_arith);
            y = y + 1;
        }
        assert(4 * (h * w) == 4 * w * h) by (nonlinear_arith);
        out
    }
}

impl DepthMap {
    /// A depth map of `width` by `height` samples, row by row; `None` unless
    /// `data` holds exactly that many bytes.
    pub fn from_raw(width: u32, height: u32, data: &[u8]) -> (r: Option<DepthMap>)
        ensures
            r is Some <==> data@.len() == (width as nat) * (height as nat),
            r matches Some(map) ==> {
                &&& map.wf()
                &&& map.width() == width
                &&& map.height() == height
                &&& forall|x: int, y: int|
                    0 <= x < width && 0 <= y < height ==> #[trigger] map.at(x, y) == data@[offset(width as nat, 1, x, y)]
            },
    {
        assert((width as nat) * (height as nat) <= 0xffff_ffffnat * 0xffff_ffffnat) by (nonlinear_arith)
            requires
                width <= 0xffff_ffffu32,
                height <= 0xffff_ffffu32,
        ;
        let total: u128 = (width as u128) * (height as u128);
        if data.len() as u128 != total {
            return None;
        }
        let ghost w = width as nat;
        let ghost h = height as nat;
        let mut map = DepthMap::blank(width, height);
        let mut y: u32 = 0;
        let mut i: usize = 0;
        while y < height
            invariant
                y <= height,
                data@.len() == w * h,
                w == width,
                h == height,
                map.wf(),
                map.width() == w,
                map.height() == h,
                i == y * w,
                forall|a: int, b: int| 0 <= a < w && 0 <= b < y ==> #[trigger] map.at(a, b) == data@[offset(w, 1, a, b)],
            decreases height - y,
        {
            let mut x: u32 = 0;
            while x < width
                invariant
                    x <= width,
                    y < height,
                    data@.len() == w * h,
                    w == width,
                    h == height,
                    map.wf(),
                    map.width() == w,
                    map.height() == h,
                    i == y * w + x,
                    forall|a: int, b: int|
                        (0 <= a < w && 0 <= b < y) || (0 <= a < x && b == y) ==> #[trigger] map.at(a, b) == data@[offset(w, 1, a, b)],
                decreases width - x,
            {
                proof {
                    lemma_offset_bounds(w, h, 1, x as int, y as int);
                }
                let ghost before = map;
                map.set_sample(x, y, data[i]);
                proof {
                    assert forall|a: int, b: int|
                        (0 <= a < w && 0 <= b < y) || (0 <= a < x + 1 && b == y) implies #[trigger] map.at(a, b) == data@[offset(w, 1, a, b)] by {
                        if !(a == x && b == y) {
                            assert(map.at(a, b) == before.at(a, b));
                        }
                    }
                }
                i = i + 1;
                x = x + 1;
            }
            assert(y * w + w == (y + 1) * w) by (nonlinear_arith);
            y = y + 1;
        }
        Some(map)
    }
}

} // verus!
