use vstd::prelude::*;
use crate::error::AppError;
use crate::raster::{color_rows, ColorImage, Rgba};

verus! {

/// Two images of equal height side by side: each row of `left` followed by
/// the row of `right` at the same height.
pub open spec fn side_by_side(left: Seq<Seq<Rgba>>, right: Seq<Seq<Rgba>>) -> Seq<Seq<Rgba>> {
    Seq::new(left.len(), |y: int| left[y] + right[y])
}

/// Packs `left` and `right` into one image, `left` in the columns from zero and
/// `right` in the columns after it; images of different heights are refused.
pub fn horiz_stack(left: &ColorImage, right: &ColorImage) -> (r: Result<ColorImage, AppError>)
    requires
        left.height() == right.height() ==> {
            &&& left.width() + right.width() <= u32::MAX
            &&& 4 * (left.width() + right.width()) <= usize::MAX
            &&& 4 * (left.width() + right.width()) * left.height() <= usize::MAX
        },
    ensures
        r is Err <==> left.height() != right.height(),
        r is Err ==> r->Err_0 is BadImage,
        r matches Ok(out) ==> {
            &&& out.wf()
            &&& out.width() == left.width() + right.width()
            &&& out.height() == left.height()
            &&& color_rows(out) == side_by_side(color_rows(*left), color_rows(*right))
            &&& forall|x: int, y: int|
                0 <= y < out.height() && 0 <= x < out.width() ==> #[trigger] out.px(x, y) == if x < left.width() {
                    left.px(x, y)
                } else {
                    right.px(x - left.width(), y)
                }
        },
{
    let (lw, lh) = left.dims();
    let (rw, rh) = right.dims();
    if lh != rh {
        return Err(AppError::BadImage(String::from_str("image heights mismatched")));
    }
    let mut output = ColorImage::blank(lw + rw, lh);
    let ghost blank = color_rows(output);
    let placed_left = output.copy_from(left, 0, 0);
    if let Err(e) = placed_left {
        return Err(AppError::ImageError(e));
    }
    let ghost with_left = color_rows(output);
    let placed_right = output.copy_from(right, lw, 0);
    if let Err(e) = placed_right {
        return Err(AppError::ImageError(e));
    }
    let ghost l = color_rows(*left);
    let ghost rr = color_rows(*right);
    assert forall|y: int| 0 <= y < lh implies #[trigger] color_rows(output)[y] =~= l[y] + rr[y] by {
        assert forall|c: int| 0 <= c < lw + rw implies #[trigger] color_rows(output)[y][c] == (l[y] + rr[y])[c] by {
            if c < lw {
                assert(with_left[y][c] == l[y][c]);
            }
        }
    }
    assert(color_rows(output) =~= side_by_side(l, rr));
    assert forall|x: int, y: int| 0 <= y < lh && 0 <= x < lw + rw implies #[trigger] output.px(x, y) == if x < lw {
        left.px(x, y)
    } else {
        right.px(x - lw, y)
    } by {
        assert(color_rows(output)[y] == l[y] + rr[y]);
    }
    Ok(output)
}

} // verus!
