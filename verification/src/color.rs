//! The fixed color palette and the nearest-color classifier.
//!
//! Every palette entry carries a layer category (`ColorKind`), a symbolic
//! name, and an RGB sample. Classification is a brute-force L1 nearest-entry
//! scan with ties broken by palette declaration order.

use vstd::prelude::*;

verus! {

/// The layer a palette entry belongs to: `Entity` cells go to the object
/// layer, `Tile` cells to the ground layer.
#[derive(Clone, Copy, PartialEq, Eq, Structural, Debug)]
pub enum ColorKind {
    Entity,
    Tile,
}

/// One palette entry: a reference color sample with its layer category and
/// symbolic name.
pub struct ColorData {
    pub kind: ColorKind,
    pub name: &'static str,
    pub r: u8,
    pub g: u8,
    pub b: u8,
}

impl ColorData {
    pub fn new(kind: ColorKind, name: &'static str, r: u8, g: u8, b: u8) -> (c: Self)
        ensures
            c.kind == kind,
            c.name == name,
            c.r == r,
            c.g == g,
            c.b == b,
    {
        Self { kind, name, r, g, b }
    }
}

/// Number of palette entries.
pub open spec fn palette_len() -> int {
    12
}

/// Category of palette entry `i`.
pub open spec fn palette_kind(i: int) -> ColorKind {
    if i <= 6 {
        ColorKind::Entity
    } else {
        ColorKind::Tile
    }
}

/// Symbolic name of palette entry `i`.
pub open spec fn palette_name(i: int) -> Seq<char> {
    if i == 0 {
        "underground-belt"@
    } else if i == 1 {
        "transport-belt"@
    } else if i == 2 {
        "pipe"@
    } else if i == 3 {
        "iron-chest"@
    } else if i == 4 {
        "stone-wall"@
    } else if i == 5 {
        "heat-pipe"@
    } else if i == 6 {
        "gate"@
    } else if i == 7 {
        "stone-path"@
    } else if i == 8 {
        "concrete"@
    } else if i == 9 {
        "hazard-concrete-left"@
    } else if i == 10 {
        "refined-concrete"@
    } else {
        "refined-hazard-concrete-left"@
    }
}

/// RGB sample of palette entry `i`, as a triple.
pub open spec fn palette_rgb(i: int) -> (u8, u8, u8) {
    if i == 0 {
        (115u8, 89u8, 0u8)
    } else if i == 1 {
        (206u8, 162u8, 66u8)
    } else if i == 2 {
        (66u8, 129u8, 164u8)
    } else if i == 3 {
        (0u8, 97u8, 148u8)
    } else if i == 4 {
        (206u8, 219u8, 206u8)
    } else if i == 5 {
        (58u8, 129u8, 173u8)
    } else if i == 6 {
        (123u8, 125u8, 123u8)
    } else if i == 7 {
        (82u8, 81u8, 74u8)
    } else if i == 8 {
        (58u8, 61u8, 58u8)
    } else if i == 9 {
        (181u8, 142u8, 33u8)
    } else if i == 10 {
        (49u8, 49u8, 41u8)
    } else {
        (115u8, 93u8, 25u8)
    }
}

/// Absolute difference of two channel values, as a mathematical integer.
pub open spec fn abs_diff_int(a: int, b: int) -> int {
    if a >= b {
        a - b
    } else {
        b - a
    }
}

/// L1 (sum of absolute channel differences) distance from probe color
/// `(r, g, b)` to palette entry `i`. Alpha never takes part in the distance.
pub open spec fn l1_dist(r: u8, g: u8, b: u8, i: int) -> int {
    abs_diff_int(r as int, palette_rgb(i).0 as int) + abs_diff_int(
        g as int,
        palette_rgb(i).1 as int,
    ) + abs_diff_int(b as int, palette_rgb(i).2 as int)
}

/// Index of the first entry among the first `n` palette entries whose L1
/// distance to the probe is minimal (earlier entries win ties).
pub open spec fn best_idx_upto(r: u8, g: u8, b: u8, n: int) -> int
    decreases n,
{
    if n <= 1 {
        0
    } else {
        let prev = best_idx_upto(r, g, b, n - 1);
        if l1_dist(r, g, b, n - 1) < l1_dist(r, g, b, prev) {
            n - 1
        } else {
            prev
        }
    }
}

/// Index of the winning palette entry for a probe color: the first entry at
/// minimal L1 distance, over the whole palette.
pub open spec fn nearest_idx(r: u8, g: u8, b: u8) -> int {
    best_idx_upto(r, g, b, palette_len())
}

/// The winner among the first `n` entries is a valid index, is at minimal
/// distance among them, and strictly beats every earlier entry.
pub proof fn lemma_best_idx_upto(r: u8, g: u8, b: u8, n: int)
    requires
        1 <= n,
    ensures
        0 <= best_idx_upto(r, g, b, n) < n,
        forall|j: int|
            0 <= j < n ==> l1_dist(r, g, b, best_idx_upto(r, g, b, n)) <= #[trigger] l1_dist(
                r,
                g,
                b,
                j,
            ),
        forall|j: int|
            0 <= j < best_idx_upto(r, g, b, n) ==> l1_dist(r, g, b, best_idx_upto(r, g, b, n))
                < #[trigger] l1_dist(r, g, b, j),
    decreases n,
{
    if n > 1 {
        lemma_best_idx_upto(r, g, b, n - 1);
    }
}

/// Deterministic tie-break law: the winning entry is at minimal distance,
/// and any other entry at the same minimal distance has a larger index —
/// among equidistant minimal entries, the one declared first always wins.
pub proof fn lemma_tie_break(r: u8, g: u8, b: u8, j: int)
    requires
        0 <= j < palette_len(),
        l1_dist(r, g, b, j) == l1_dist(r, g, b, nearest_idx(r, g, b)),
        j != nearest_idx(r, g, b),
    ensures
        nearest_idx(r, g, b) < j,
{
    lemma_best_idx_upto(r, g, b, palette_len());
}

/// Exact-match law: probing with the exact RGB sample of any palette entry
/// classifies as that entry.
pub proof fn lemma_exact_match(i: int)
    requires
        0 <= i < palette_len(),
    ensures
        nearest_idx(palette_rgb(i).0, palette_rgb(i).1, palette_rgb(i).2) == i,
{
    let r = palette_rgb(i).0;
    let g = palette_rgb(i).1;
    let b = palette_rgb(i).2;
    lemma_best_idx_upto(r, g, b, palette_len());
    assert(l1_dist(r, g, b, i) == 0);
    let w = nearest_idx(r, g, b);
    assert(l1_dist(r, g, b, w) <= 0);
    if w != i {
        assert(palette_rgb(w) == palette_rgb(i));
        assert(false);
    }
}

/// Every palette name is printable ASCII without quotes or backslashes, so
/// it can stand inside a quoted document string as-is.
pub proof fn lemma_palette_name_wf(i: int)
    ensures
        crate::bytes::wf_text(palette_name(i)),
{
    reveal_strlit("underground-belt");
    reveal_strlit("transport-belt");
    reveal_strlit("pipe");
    reveal_strlit("iron-chest");
    reveal_strlit("stone-wall");
    reveal_strlit("heat-pipe");
    reveal_strlit("gate");
    reveal_strlit("stone-path");
    reveal_strlit("concrete");
    reveal_strlit("hazard-concrete-left");
    reveal_strlit("refined-concrete");
    reveal_strlit("refined-hazard-concrete-left");
}

/// The full palette, in declaration order.
pub fn color_data() -> (v: Vec<ColorData>)
    ensures
        v@.len() == palette_len(),
        forall|i: int|
            0 <= i < palette_len() ==> (#[trigger] v@[i]).kind == palette_kind(i) && v@[i].name@
                == palette_name(i) && v@[i].r == palette_rgb(i).0 && v@[i].g == palette_rgb(i).1
                && v@[i].b == palette_rgb(i).2,
{
    let mut v: Vec<ColorData> = Vec::new();
    v.push(ColorData::new(ColorKind::Entity, "underground-belt", 115, 89, 0));
    v.push(ColorData::new(ColorKind::Entity, "transport-belt", 206, 162, 66));
    v.push(ColorData::new(ColorKind::Entity, "pipe", 66, 129, 164));
    v.push(ColorData::new(ColorKind::Entity, "iron-chest", 0, 97, 148));
    v.push(ColorData::new(ColorKind::Entity, "stone-wall", 206, 219, 206));
    v.push(ColorData::new(ColorKind::Entity, "heat-pipe", 58, 129, 173));
    v.push(ColorData::new(ColorKind::Entity, "gate", 123, 125, 123));
    v.push(ColorData::new(ColorKind::Tile, "stone-path", 82, 81, 74));
    v.push(ColorData::new(ColorKind::Tile, "concrete", 58, 61, 58));
    v.push(ColorData::new(ColorKind::Tile, "hazard-concrete-left", 181, 142, 33));
    v.push(ColorData::new(ColorKind::Tile, "refined-concrete", 49, 49, 41));
    v.push(ColorData::new(ColorKind::Tile, "refined-hazard-concrete-left", 115, 93, 25));
    v
}

/// Absolute difference of two channel values.
fn abs_diff_u8(a: u8, b: u8) -> (d: u32)
    ensures
        d == abs_diff_int(a as int, b as int),
{
    if a >= b {
        (a - b) as u32
    } else {
        (b - a) as u32
    }
}

/// L1 distance from a probe color to one palette entry.
fn l1_dist_exec(r: u8, g: u8, b: u8, entry: &ColorData, i: Ghost<int>) -> (d: u32)
    requires
        entry.r == palette_rgb(i@).0,
        entry.g == palette_rgb(i@).1,
        entry.b == palette_rgb(i@).2,
    ensures
        d == l1_dist(r, g, b, i@),
{
    abs_diff_u8(r, entry.r) + abs_diff_u8(g, entry.g) + abs_diff_u8(b, entry.b)
}

/// Index of the nearest palette entry to an RGB probe: the linear scan that
/// keeps the first entry at minimal L1 distance.
pub fn nearest_index(r: u8, g: u8, b: u8) -> (res: usize)
    ensures
        res == nearest_idx(r, g, b),
        0 <= res < palette_len(),
{
    let palette = color_data();
    let mut best_i: usize = 0;
    let mut best_d: u32 = l1_dist_exec(r, g, b, &palette[0], Ghost(0int));
    let mut i: usize = 1;
    while i < palette.len()
        invariant
            1 <= i <= palette_len(),
            palette@.len() == palette_len(),
            forall|k: int|
                0 <= k < palette_len() ==> (#[trigger] palette@[k]).kind == palette_kind(k)
                    && palette@[k].r == palette_rgb(k).0 && palette@[k].g == palette_rgb(k).1
                    && palette@[k].b == palette_rgb(k).2,
            best_i == best_idx_upto(r, g, b, i as int),
            best_d == l1_dist(r, g, b, best_i as int),
        decreases palette_len() - i,
    {
        let d = l1_dist_exec(r, g, b, &palette[i], Ghost(i as int));
        proof {
            lemma_best_idx_upto(r, g, b, i as int);
        }
        if d < best_d {
            best_i = i;
            best_d = d;
        }
        i = i + 1;
    }
    proof {
        lemma_best_idx_upto(r, g, b, palette_len());
    }
    best_i
}

/// Nearest palette entry to an RGB probe: the first entry at minimal L1
/// distance, returned as its category and symbolic name.
pub fn nearest_color(source: (u8, u8, u8)) -> (res: (ColorKind, &'static str))
    ensures
        res.0 == palette_kind(nearest_idx(source.0, source.1, source.2)),
        res.1@ == palette_name(nearest_idx(source.0, source.1, source.2)),
{
    let (r, g, b) = source;
    let best_i = nearest_index(r, g, b);
    let palette = color_data();
    (palette[best_i].kind, palette[best_i].name)
}

/// Classify one RGBA pixel: a fully transparent pixel (alpha exactly 0) is
/// excluded from both layers (`None`); every other pixel maps to the winning
/// palette entry's category and name.
pub fn classify(pixel: (u8, u8, u8, u8)) -> (res: Option<(ColorKind, &'static str)>)
    ensures
        res is None <==> pixel.3 == 0,
        res matches Some(c) ==> c.0 == palette_kind(nearest_idx(pixel.0, pixel.1, pixel.2))
            && c.1@ == palette_name(nearest_idx(pixel.0, pixel.1, pixel.2)),
{
    if pixel.3 == 0 {
        None
    } else {
        Some(nearest_color((pixel.0, pixel.1, pixel.2)))
    }
}

/// Quantization map for error-diffusion dithering. Unlike direct
/// classification, it treats every pixel whose alpha is below a small
/// threshold (not only exactly zero) as transparent, because dithering must
/// decide transparency before diffusing quantization error.
pub struct GlobalColorMap;

/// Sentinel index meaning "below the dithering alpha threshold".
pub open spec fn transparent_index() -> int {
    usize::MAX as int
}

/// Alpha values below this threshold are transparent for dithering.
pub open spec fn dither_alpha_threshold() -> int {
    16
}

impl GlobalColorMap {
    /// Index of the nearest palette entry, or the transparent sentinel for a
    /// low-alpha pixel.
    pub fn index_of(&self, color: &(u8, u8, u8, u8)) -> (res: usize)
        ensures
            color.3 < dither_alpha_threshold() ==> res == transparent_index(),
            color.3 >= dither_alpha_threshold() ==> res == nearest_idx(color.0, color.1, color.2),
    {
        if color.3 < 16 {
            return usize::MAX;
        }
        nearest_index(color.0, color.1, color.2)
    }

    /// Snap a pixel to the winning palette entry's RGB at full opacity, or to
    /// the fully transparent pixel when below the dithering alpha threshold.
    pub fn map_color(&self, color: &mut (u8, u8, u8, u8))
        ensures
            old(color).3 < dither_alpha_threshold() ==> *final(color) == (0u8, 0u8, 0u8, 0u8),
            old(color).3 >= dither_alpha_threshold() ==> {
                let rgb = palette_rgb(nearest_idx(old(color).0, old(color).1, old(color).2));
                *final(color) == (rgb.0, rgb.1, rgb.2, 255u8)
            },
    {
        proof {
            lemma_best_idx_upto(color.0, color.1, color.2, palette_len());
        }
        let index = self.index_of(color);
        if index == usize::MAX {
            *color = (0, 0, 0, 0);
            return ;
        }
        let palette = color_data();
        proof {
            lemma_best_idx_upto(old(color).0, old(color).1, old(color).2, palette_len());
        }
        let data = &palette[index];
        *color = (data.r, data.g, data.b, 255);
    }
}

} // verus!
