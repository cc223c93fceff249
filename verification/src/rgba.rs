//! Raw pixel data handed in by a host: RGBA bytes turned into the RGB bytes of an image.
use vstd::prelude::*;

verus! {

/// Why RGBA pixel data cannot be read as an image of the given size.
#[derive(Debug, PartialEq, Eq, Clone, Copy)]
pub enum RgbaError {
    /// `width * height * 4` does not fit in `usize`.
    DimensionsOverflow,
    /// The data holds `len` bytes where `width * height * 4 == expected` were needed.
    LengthMismatch { len: usize, expected: usize },
}

/// `rgb` holds, pixel by pixel, the red, green and blue bytes of `rgba`, without the alpha bytes.
pub open spec fn drops_alpha(rgba: Seq<u8>, rgb: Seq<u8>) -> bool {
    &&& rgb.len() == rgba.len() / 4 * 3
    &&& forall|p: int, c: int| 0 <= p < rgba.len() / 4 && 0 <= c < 3 ==> #[trigger] rgb[3 * p + c] == rgba[4 * p + c]
}

/// Dropping alpha keeps, for every pixel `p`, its red, green and blue bytes in that order
/// at positions `3p`, `3p + 1` and `3p + 2`, and leaves out its alpha byte `4p + 3`: three
/// bytes for every four.
pub proof fn lemma_drops_alpha_keeps_channels(rgba: Seq<u8>, rgb: Seq<u8>)
    requires
        drops_alpha(rgba, rgb),
    ensures
        rgba.len() % 4 == 0 ==> 4 * rgb.len() == 3 * rgba.len(),
        forall|p: int|
            0 <= p < rgba.len() / 4 ==> {
                &&& #[trigger] rgb[3 * p] == rgba[4 * p]
                &&& rgb[3 * p + 1] == rgba[4 * p + 1]
                &&& rgb[3 * p + 2] == rgba[4 * p + 2]
            },
{
    assert forall|p: int| 0 <= p < rgba.len() / 4 implies {
        &&& #[trigger] rgb[3 * p] == rgba[4 * p]
        &&& rgb[3 * p + 1] == rgba[4 * p + 1]
        &&& rgb[3 * p + 2] == rgba[4 * p + 2]
    } by {
        assert(rgb[3 * p + 0] == rgba[4 * p + 0]);
        assert(rgb[3 * p + 1] == rgba[4 * p + 1]);
        assert(rgb[3 * p + 2] == rgba[4 * p + 2]);
    }
}

/// The RGB bytes of an image of `width` by `height` pixels given as RGBA bytes.
///
/// The data must be exactly `width * height * 4` bytes long; alpha is dropped.
pub fn rgb_from_rgba(rgba: &[u8], width: u32, height: u32) -> (r: Result<Vec<u8>, RgbaError>)
    ensures
        r == Err::<Vec<u8>, RgbaError>(RgbaError::DimensionsOverflow) <==> width as int * height as int * 4
            > usize::MAX,
        r == Err::<Vec<u8>, RgbaError>(
            RgbaError::LengthMismatch {
                len: rgba@.len() as usize,
                expected: (width as int * height as int * 4) as usize,
            },
        ) <==> (width as int * height as int * 4 <= usize::MAX && rgba@.len() != width as int * height as int
            * 4),
        r is Ok <==> rgba@.len() == width as int * height as int * 4,
        r matches Ok(rgb) ==> drops_alpha(rgba@, rgb@),
{
    let len = rgba.len();
    let pixels = match (width as usize).checked_mul(height as usize) {
        Some(p) => p,
        None => {
            proof {
                assert(width as int * height as int * 4 > usize::MAX) by (nonlinear_arith)
                    requires
                        width as int * height as int > usize::MAX,
                ;
            }
            return Err(RgbaError::DimensionsOverflow);
        },
    };
    let expected = match pixels.checked_mul(4) {
        Some(e) => e,
        None => {
            return Err(RgbaError::DimensionsOverflow);
        },
    };
    if len != expected {
        return Err(RgbaError::LengthMismatch { len, expected });
    }
    let mut rgb: Vec<u8> = Vec::new();
    let mut p: usize = 0;
    while p < pixels
        invariant
            rgba@.len() == 4 * pixels,
            rgba@.len() <= usize::MAX,
            p <= pixels,
            rgb@.len() == 3 * p,
            forall|q: int, c: int| 0 <= q < p && 0 <= c < 3 ==> #[trigger] rgb@[3 * q + c] == rgba@[4 * q + c],
        decreases pixels - p,
    {
        rgb.push(rgba[4 * p]);
        rgb.push(rgba[4 * p + 1]);
        rgb.push(rgba[4 * p + 2]);
        p += 1;
    }
    Ok(rgb)
}

} // verus!
