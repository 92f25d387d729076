//! The rasterizer: a scalar grid becomes a pixel buffer, strictly
//! pointwise, each scalar mapped through the palette by interpolated or
//! by nearest-stop lookup.
use vstd::prelude::*;

verus! {

use crate::SCALE;
use crate::color::{Palette, spec_color, spec_nearest_idx};

/// Map a row-major scalar grid through interpolated palette lookup
/// into a row-major pixel buffer of the same extent.
pub fn draw(data: Vec<u32>, width: u32, height: u32, palette: Palette) -> (r: Vec<[u8; 3]>)
    requires
        palette.wf(),
        data@.len() == width * height,
        forall|i: int| 0 <= i < data@.len() ==> data@[i] <= SCALE,
    ensures
        r@.len() == data@.len(),
        forall|i: int|
            0 <= i < data@.len() ==> r@[i] == spec_color(palette.stops@, data@[i] as int),
{
    let n = data.len();
    let mut out: Vec<[u8; 3]> = Vec::new();
    let mut i: usize = 0;
    while i < n
        invariant
            palette.wf(),
            n == data@.len(),
            i <= n,
            out@.len() == i,
            forall|j: int| 0 <= j < data@.len() ==> data@[j] <= SCALE,
            forall|j: int| 0 <= j < i ==> out@[j] == spec_color(palette.stops@, data@[j] as int),
        decreases n - i,
    {
        let px = palette.color(data[i]);
        out.push(px);
        i += 1;
    }
    out
}

/// Map a row-major scalar grid through nearest-stop palette lookup
/// into a row-major pixel buffer of the same extent.
pub fn draw_nearest(data: Vec<u32>, width: u32, height: u32, palette: Palette) -> (r: Vec<[u8; 3]>)
    requires
        palette.wf(),
        data@.len() == width * height,
        forall|i: int| 0 <= i < data@.len() ==> data@[i] <= SCALE,
    ensures
        r@.len() == data@.len(),
        forall|i: int|
            0 <= i < data@.len() ==> r@[i] == palette.stops@[spec_nearest_idx(
                palette.stops@,
                data@[i] as int,
            )].color,
{
    let n = data.len();
    let mut out: Vec<[u8; 3]> = Vec::new();
    let mut i: usize = 0;
    while i < n
        invariant
            palette.wf(),
            n == data@.len(),
            i <= n,
            out@.len() == i,
            forall|j: int| 0 <= j < data@.len() ==> data@[j] <= SCALE,
            forall|j: int|
                0 <= j < i ==> out@[j] == palette.stops@[spec_nearest_idx(
                    palette.stops@,
                    data@[j] as int,
                )].color,
        decreases n - i,
    {
        let px = palette.nearest_color(data[i]);
        out.push(px);
        i += 1;
    }
    out
}

} // verus!
