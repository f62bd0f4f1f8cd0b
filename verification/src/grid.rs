//! Walks a decoded pixel buffer, classifies every opaque pixel, and deposits
//! its symbolic name into one of two same-shaped grids: the object grid or
//! the ground grid. An empty string marks an empty cell.

use vstd::prelude::*;

use crate::color::{color_data, nearest_idx, nearest_index, palette_kind, palette_len, palette_name,
    ColorKind};

verus! {

/// Why a pixel buffer was rejected before the per-pixel walk.
#[derive(Clone, Copy, PartialEq, Eq, Structural, Debug)]
pub enum GridError {
    /// The buffer has zero area: its width or height is zero.
    EmptyInput,
}

/// The name a classified pixel contributes to the object grid at its cell.
/// A pixel feeds at most one of the two grids, determined by the winning
/// palette entry's category; a fully transparent pixel feeds neither.
pub open spec fn object_cell_name(px: (u8, u8, u8, u8)) -> Seq<char> {
    if px.3 != 0 && palette_kind(nearest_idx(px.0, px.1, px.2)) == ColorKind::Entity {
        palette_name(nearest_idx(px.0, px.1, px.2))
    } else {
        Seq::empty()
    }
}

/// The name a classified pixel contributes to the ground grid at its cell.
pub open spec fn ground_cell_name(px: (u8, u8, u8, u8)) -> Seq<char> {
    if px.3 != 0 && palette_kind(nearest_idx(px.0, px.1, px.2)) == ColorKind::Tile {
        palette_name(nearest_idx(px.0, px.1, px.2))
    } else {
        Seq::empty()
    }
}

/// The pair of grid cells written for one pixel holds exactly the names the
/// pixel contributes: `o` in the object grid and `g` in the ground grid.
pub open spec fn cell_ok(o: &'static str, g: &'static str, px: (u8, u8, u8, u8)) -> bool {
    o@ == object_cell_name(px) && g@ == ground_cell_name(px)
}

/// One produced grid row covers columns `[0, width)` of buffer row `row`.
pub open spec fn row_ok(
    orow: Vec<&'static str>,
    grow: Vec<&'static str>,
    pixels: Seq<(u8, u8, u8, u8)>,
    row: int,
    width: int,
) -> bool {
    &&& orow@.len() == width
    &&& grow@.len() == width
    &&& forall|c: int|
        0 <= c < width ==> #[trigger] cell_ok(orow@[c], grow@[c], pixels[row * width + c])
}

/// Whatever a pixel contributes to either grid is well-formed document
/// text: a palette name or the empty marker.
pub proof fn lemma_cell_names_wf(px: (u8, u8, u8, u8))
    ensures
        crate::bytes::wf_text(object_cell_name(px)),
        crate::bytes::wf_text(ground_cell_name(px)),
{
    crate::color::lemma_palette_name_wf(nearest_idx(px.0, px.1, px.2));
}

/// Classify every pixel of a `width` x `height` row-major buffer and build
/// the object grid and the ground grid, both indexed `[row][column]` with
/// the same shape as the buffer. A zero-area buffer is rejected before the
/// walk begins.
pub fn build_grids(width: usize, height: usize, pixels: &Vec<(u8, u8, u8, u8)>) -> (r: Result<
    (Vec<Vec<&'static str>>, Vec<Vec<&'static str>>),
    GridError,
>)
    requires
        pixels@.len() == width * height,
    ensures
        r is Err <==> (width == 0 || height == 0),
        r matches Err(e) ==> e == GridError::EmptyInput,
        r matches Ok(g) ==> {
            &&& g.0@.len() == height
            &&& g.1@.len() == height
            &&& forall|row: int|
                0 <= row < height ==> #[trigger] row_ok(
                    g.0@[row],
                    g.1@[row],
                    pixels@,
                    row,
                    width as int,
                )
        },
{
    if width == 0 || height == 0 {
        return Err(GridError::EmptyInput);
    }
    let n = pixels.len();
    let palette = color_data();
    let mut object_grid: Vec<Vec<&'static str>> = Vec::new();
    let mut ground_grid: Vec<Vec<&'static str>> = Vec::new();
    let mut row: usize = 0;
    while row < height
        invariant
            pixels@.len() == width * height,
            n == pixels@.len(),
            width >= 1,
            height >= 1,
            palette@.len() == palette_len(),
            forall|k: int|
                0 <= k < palette_len() ==> (#[trigger] palette@[k]).kind == palette_kind(k)
                    && palette@[k].name@ == palette_name(k),
            0 <= row <= height,
            object_grid@.len() == row,
            ground_grid@.len() == row,
            forall|i: int|
                0 <= i < row ==> #[trigger] row_ok(
                    object_grid@[i],
                    ground_grid@[i],
                    pixels@,
                    i,
                    width as int,
                ),
        decreases height - row,
    {
        let mut object_row: Vec<&'static str> = Vec::new();
        let mut ground_row: Vec<&'static str> = Vec::new();
        let mut col: usize = 0;
        while col < width
            invariant
                pixels@.len() == width * height,
                n == pixels@.len(),
                width >= 1,
                palette@.len() == palette_len(),
                forall|k: int|
                    0 <= k < palette_len() ==> (#[trigger] palette@[k]).kind == palette_kind(k)
                        && palette@[k].name@ == palette_name(k),
                0 <= row < height,
                0 <= col <= width,
                object_row@.len() == col,
                ground_row@.len() == col,
                forall|c: int|
                    0 <= c < col ==> #[trigger] cell_ok(
                        object_row@[c],
                        ground_row@[c],
                        pixels@[row * width + c],
                    ),
            decreases width - col,
        {
            proof {
                assert((row as int) * width + col < (height as int) * width) by (nonlinear_arith)
                    requires
                        0 <= (row as int) && (row as int) < (height as int),
                        0 <= (col as int) && (col as int) < (width as int),
                ;
                assert((height as int) * width == pixels@.len());
            }
            let px = pixels[row * width + col];
            if px.3 == 0 {
                object_row.push("");
                ground_row.push("");
            } else {
                let idx = nearest_index(px.0, px.1, px.2);
                let entry = &palette[idx];
                match entry.kind {
                    ColorKind::Entity => {
                        object_row.push(entry.name);
                        ground_row.push("");
                    },
                    ColorKind::Tile => {
                        object_row.push("");
                        ground_row.push(entry.name);
                    },
                }
            }
            proof {
                reveal_strlit("");
                assert(cell_ok(
                    object_row@[col as int],
                    ground_row@[col as int],
                    pixels@[(row as int) * width + col],
                )) by {
                    assert(""@ =~= Seq::<char>::empty());
                }
            }
            col = col + 1;
        }
        object_grid.push(object_row);
        ground_grid.push(ground_row);
        row = row + 1;
        proof {
            assert(row_ok(
                object_grid@[row - 1],
                ground_grid@[row - 1],
                pixels@,
                row - 1,
                width as int,
            ));
        }
    }
    Ok((object_grid, ground_grid))
}

} // verus!
