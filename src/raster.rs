use vstd::prelude::*;
use image::error::ImageError;
use image::{GenericImage, GrayImage, ImageBuffer, RgbaImage};

verus! {

/// One colour pixel: red, green, blue and alpha channels.
pub type Rgba = [u8; 4];

/// A colour image, held in an `image` crate RGBA buffer.
#[verifier::external_body]
pub struct ColorImage {
    buf: RgbaImage,
}

/// A single-channel 8-bit intensity image, held in an `image` crate grey buffer.
#[verifier::external_body]
pub struct DepthMap {
    buf: GrayImage,
}

/// The pixels of a colour image, row by row.
pub uninterp spec fn color_rows(img: ColorImage) -> Seq<Seq<Rgba>>;

/// The width a colour image was made with.
pub uninterp spec fn color_width(img: ColorImage) -> nat;

/// The samples of a depth map, row by row.
pub uninterp spec fn depth_rows(map: DepthMap) -> Seq<Seq<u8>>;

/// The width a depth map was made with.
pub uninterp spec fn depth_width(map: DepthMap) -> nat;

/// A row-major grid of `h` rows of `w` copies of `v`.
pub open spec fn grid<T>(w: nat, h: nat, v: T) -> Seq<Seq<T>> {
    Seq::new(h, |y: int| Seq::new(w, |x: int| v))
}

/// `src` laid over `dst` with its top-left corner at column `x` of row `y`;
/// `src_w` is the width of `src`.
pub open spec fn blit(dst: Seq<Seq<Rgba>>, src: Seq<Seq<Rgba>>, src_w: nat, x: nat, y: nat) -> Seq<Seq<Rgba>> {
    Seq::new(
        dst.len(),
        |r: int|
            Seq::new(
                dst[r].len(),
                |c: int|
                    if y <= r < y + src.len() && x <= c < x + src_w {
                        src[r - y][c - x]
                    } else {
                        dst[r][c]
                    },
            ),
    )
}

impl ColorImage {
    pub open spec fn width(&self) -> nat {
        color_width(*self)
    }

    pub open spec fn height(&self) -> nat {
        color_rows(*self).len()
    }

    /// The pixel in column `x` of row `y`.
    pub open spec fn px(&self, x: int, y: int) -> Rgba {
        color_rows(*self)[y][x]
    }

    /// Every row is as wide as the image, and the buffer is addressable.
    pub open spec fn wf(&self) -> bool {
        &&& self.width() <= u32::MAX
        &&& self.height() <= u32::MAX
        &&& 4 * self.width() * self.height() <= usize::MAX
        &&& forall|y: int| 0 <= y < self.height() ==> (#[trigger] color_rows(*self)[y]).len() == self.width()
    }

    /// Relies on ImageBuffer::new: a zero-filled buffer of the given size,
    /// which panics where the bytes of one row, or of the whole buffer,
    /// overflow usize.
    #[verifier::external_body]
    pub(crate) fn blank(width: u32, height: u32) -> (r: ColorImage)
        requires
            4 * (width as nat) <= usize::MAX,
            4 * (width as nat) * (height as nat) <= usize::MAX,
        ensures
            color_width(r) == width,
            color_rows(r) == grid(width as nat, height as nat, [0u8, 0u8, 0u8, 0u8]),
    {
        ColorImage { buf: ImageBuffer::new(width, height) }
    }

    /// Relies on ImageBuffer::dimensions: the stored width and height, which the
    /// buffer's constructors keep consistent with its pixel data (they refuse
    /// sizes whose bytes per row or in all overflow usize).
    #[verifier::external_body]
    pub(crate) fn dims(&self) -> (r: (u32, u32))
        ensures
            r.0 == color_width(*self),
            r.1 == self.height(),
            4 * (r.0 as nat) <= usize::MAX,
            4 * (r.0 as nat) * (r.1 as nat) <= usize::MAX,
            forall|y: int| 0 <= y < r.1 ==> (#[trigger] color_rows(*self)[y]).len() == r.0,
    {
        self.buf.dimensions()
    }

    /// Relies on ImageBuffer::get_pixel: the pixel at column `x` of row `y`;
    /// it panics out of bounds.
    #[verifier::external_body]
    pub(crate) fn pixel(&self, x: u32, y: u32) -> (r: Rgba)
        requires
            self.wf(),
            x < self.width(),
            y < self.height(),
        ensures
            r == self.px(x as int, y as int),
    {
        self.buf.get_pixel(x, y).0
    }

    /// Relies on ImageBuffer::put_pixel: overwrites the pixel at column `x` of
    /// row `y` and nothing else; it panics out of bounds.
    #[verifier::external_body]
    pub(crate) fn set_pixel(&mut self, x: u32, y: u32, p: Rgba)
        requires
            old(self).wf(),
            x < old(self).width(),
            y < old(self).height(),
        ensures
            color_width(*final(self)) == color_width(*old(self)),
            color_rows(*final(self)) == color_rows(*old(self)).update(
                y as int,
                color_rows(*old(self))[y as int].update(x as int, p),
            ),
    {
        self.buf.put_pixel(x, y, image::Rgba(p))
    }

    /// Relies on GenericImage::copy_from: fails, changing nothing, where `other`
    /// placed at column `x` of row `y` would not fit; else copies every pixel
    /// of `other` there and leaves the rest. Its bounds test adds `x` to the
    /// width and `y` to the height of `other`, so those sums must not overflow.
    #[verifier::external_body]
    pub(crate) fn copy_from(&mut self, other: &ColorImage, x: u32, y: u32) -> (r: Result<(), ImageError>)
        requires
            old(self).wf(),
            other.wf(),
            other.width() + x <= u32::MAX,
            other.height() + y <= u32::MAX,
        ensures
            color_width(*final(self)) == color_width(*old(self)),
            r is Ok <==> (color_width(*other) + x <= color_width(*old(self))
                && color_rows(*other).len() + y <= color_rows(*old(self)).len()),
            r is Ok ==> color_rows(*final(self)) == blit(
                color_rows(*old(self)),
                color_rows(*other),
                color_width(*other),
                x as nat,
                y as nat,
            ),
            r is Err ==> color_rows(*final(self)) == color_rows(*old(self)),
    {
        self.buf.copy_from(&other.buf, x, y)
    }
}

impl DepthMap {
    pub open spec fn width(&self) -> nat {
        depth_width(*self)
    }

    pub open spec fn height(&self) -> nat {
        depth_rows(*self).len()
    }

    /// The sample in column `x` of row `y`.
    pub open spec fn at(&self, x: int, y: int) -> u8 {
        depth_rows(*self)[y][x]
    }

    /// Every row is as wide as the map, and the buffer is addressable.
    pub open spec fn wf(&self) -> bool {
        &&& self.width() <= u32::MAX
        &&& self.height() <= u32::MAX
        &&& self.width() * self.height() <= usize::MAX
        &&& forall|y: int| 0 <= y < self.height() ==> (#[trigger] depth_rows(*self)[y]).len() == self.width()
    }

    /// Relies on ImageBuffer::new: a zero-filled buffer of the given size,
    /// which panics where its byte length overflows usize.
    #[verifier::external_body]
    pub(crate) fn blank(width: u32, height: u32) -> (r: DepthMap)
        requires
            (width as nat) * (height as nat) <= usize::MAX,
        ensures
            depth_width(r) == width,
            depth_rows(r) == grid(width as nat, height as nat, 0u8),
    {
        DepthMap { buf: ImageBuffer::new(width, height) }
    }

    /// Relies on ImageBuffer::dimensions: the stored width and height, which the
    /// buffer's constructors keep consistent with its sample data.
    #[verifier::external_body]
    pub(crate) fn dims(&self) -> (r: (u32, u32))
        ensures
            r.0 == depth_width(*self),
            r.1 == self.height(),
            (r.0 as nat) * (r.1 as nat) <= usize::MAX,
            forall|y: int| 0 <= y < r.1 ==> (#[trigger] depth_rows(*self)[y]).len() == r.0,
    {
        self.buf.dimensions()
    }

    /// Relies on ImageBuffer::get_pixel: the sample at column `x` of row `y`;
    /// it panics out of bounds.
    #[verifier::external_body]
    pub(crate) fn sample(&self, x: u32, y: u32) -> (r: u8)
        requires
            self.wf(),
            x < self.width(),
            y < self.height(),
        ensures
            r == self.at(x as int, y as int),
    {
        self.buf.get_pixel(x, y).0[0]
    }

    /// Relies on ImageBuffer::put_pixel: overwrites the sample at column `x` of
    /// row `y` and nothing else; it panics out of bounds.
    #[verifier::external_body]
    pub(crate) fn set_sample(&mut self, x: u32, y: u32, v: u8)
        requires
            old(self).wf(),
            x < old(self).width(),
            y < old(self).height(),
        ensures
            depth_width(*final(self)) == depth_width(*old(self)),
            depth_rows(*final(self)) == depth_rows(*old(self)).update(
                y as int,
                depth_rows(*old(self))[y as int].update(x as int, v),
            ),
    {
        self.buf.put_pixel(x, y, image::Luma([v]))
    }
}

} // verus!
