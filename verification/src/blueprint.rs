//! The assembled layout: placed entities and tiles with their coordinates,
//! plus the fixed blueprint metadata, and the assembler that builds it from
//! the two classified grids.

use vstd::prelude::*;

use crate::bytes::str_eq;

verus! {

/// Kind tag of an icon signal.
#[derive(Clone, Copy, PartialEq, Eq, Structural, Debug)]
pub enum SignalKind {
    Item,
    Fluid,
    Virtual,
}

/// An icon's signal: its kind and the name of the thing it shows.
pub struct Signal {
    pub kind: SignalKind,
    pub name: &'static str,
}

/// A display icon attached to the blueprint.
pub struct Icon {
    pub signal: Signal,
    pub index: usize,
}

/// Orientation of a placed entity. Only `North` (the default, omitted when
/// serialized) and `South` (the rotated override) are ever emitted here.
#[derive(Clone, Copy, PartialEq, Eq, Structural, Debug)]
pub enum Direction {
    North,
    East,
    South,
    West,
}

impl Direction {
    /// The default orientation is suppressed in the serialized document.
    pub fn should_skip(&self) -> (r: bool)
        ensures
            r == (*self is North),
    {
        match self {
            Direction::North => true,
            _ => false,
        }
    }

    /// The external format's integer code for this orientation.
    pub fn code(&self) -> (r: u8)
        ensures
            r == direction_code(*self),
    {
        match self {
            Direction::North => 0,
            Direction::East => 2,
            Direction::South => 4,
            Direction::West => 6,
        }
    }
}

/// The external format's four-direction code: north 0, east 2, south 4,
/// west 6.
pub open spec fn direction_code(d: Direction) -> int {
    match d {
        Direction::North => 0,
        Direction::East => 2,
        Direction::South => 4,
        Direction::West => 6,
    }
}

/// A grid position, stored in half-cell units so that both whole-cell tile
/// anchors and center-of-cell entity anchors are exact integers: a stored
/// value `v` stands for the coordinate `v / 2`.
pub struct Position {
    pub x2: u64,
    pub y2: u64,
}

/// A placed object-layer element.
pub struct Entity {
    pub entity_number: usize,
    pub name: &'static str,
    pub position: Position,
    pub direction: Direction,
}

/// A placed ground-layer element.
pub struct Tile {
    pub name: &'static str,
    pub position: Position,
}

/// The assembled layout document body.
pub struct Blueprint {
    pub icons: Vec<Icon>,
    pub entities: Vec<Entity>,
    pub tiles: Vec<Tile>,
    pub item: &'static str,
    pub label: &'static str,
    pub version: u64,
}

/// The top-level document: a single blueprint.
pub struct Container {
    pub blueprint: Blueprint,
}

/// Fixed format version of the transport document, reproduced byte-for-byte
/// for compatibility with the external consumer; it is never computed.
pub const FORMAT_VERSION: u64 = 281479275413505;

/// Name of the one entity type whose placement at an odd row is rotated.
pub open spec fn rotated_name() -> Seq<char> {
    "pipe-to-ground"@
}

/// The non-empty cells of columns `[0, c)` of one grid row `r`, in column
/// order, as `(name, row, column)` triples.
pub open spec fn row_cells(row: Seq<Seq<char>>, r: int, c: int) -> Seq<(Seq<char>, int, int)>
    decreases c,
{
    if c <= 0 {
        Seq::empty()
    } else {
        row_cells(row, r, c - 1) + (if row[c - 1].len() == 0 {
            Seq::empty()
        } else {
            seq![(row[c - 1], r, c - 1)]
        })
    }
}

/// The non-empty cells of rows `[0, r)` of a grid, in row-major order.
pub open spec fn grid_cells(grid: Seq<Seq<Seq<char>>>, r: int) -> Seq<(Seq<char>, int, int)>
    decreases r,
{
    if r <= 0 {
        Seq::empty()
    } else {
        grid_cells(grid, r - 1) + row_cells(grid[r - 1], r - 1, grid[r - 1].len() as int)
    }
}

/// All non-empty cells of a grid, in row-major scan order.
pub open spec fn all_cells(grid: Seq<Seq<Seq<char>>>) -> Seq<(Seq<char>, int, int)> {
    grid_cells(grid, grid.len() as int)
}

/// The entity emitted for the `k`-th non-empty object cell: sequential id
/// `k + 1`, center-of-cell anchor, and the rotation override for the
/// underground connector at an odd row.
pub open spec fn entity_matches(e: Entity, cell: (Seq<char>, int, int), k: int) -> bool {
    &&& e.entity_number == k + 1
    &&& e.name@ == cell.0
    &&& e.position.x2 == 2 * cell.2 + 1
    &&& e.position.y2 == 2 * cell.1 + 1
    &&& e.direction == (if cell.0 == rotated_name() && cell.1 % 2 == 1 {
        Direction::South
    } else {
        Direction::North
    })
}

/// The tile emitted for a non-empty ground cell: whole-cell anchor at the
/// cell's integer origin.
pub open spec fn tile_matches(t: Tile, cell: (Seq<char>, int, int)) -> bool {
    &&& t.name@ == cell.0
    &&& t.position.x2 == 2 * cell.2
    &&& t.position.y2 == 2 * cell.1
}

/// The emitted entity list corresponds cell-for-cell to the non-empty cells
/// of the object grid.
pub open spec fn entities_match(es: Seq<Entity>, grid: Seq<Seq<Seq<char>>>) -> bool {
    &&& es.len() == all_cells(grid).len()
    &&& forall|k: int| 0 <= k < es.len() ==> entity_matches(#[trigger] es[k], all_cells(grid)[k], k)
}

/// The emitted tile list corresponds cell-for-cell to the non-empty cells of
/// the ground grid.
pub open spec fn tiles_match(ts: Seq<Tile>, grid: Seq<Seq<Seq<char>>>) -> bool {
    &&& ts.len() == all_cells(grid).len()
    &&& forall|k: int| 0 <= k < ts.len() ==> tile_matches(#[trigger] ts[k], all_cells(grid)[k])
}

/// A grid is rectangular with row length `w`, and its dimensions stay within
/// the machine's coordinate range.
pub open spec fn grid_ok(grid: Seq<Seq<Seq<char>>>, w: int) -> bool {
    &&& forall|i: int| 0 <= i < grid.len() ==> (#[trigger] grid[i]).len() == w
    &&& grid.len() <= 0x8000_0000_0000_0000
    &&& w <= 0x8000_0000_0000_0000
}

/// There are at most as many non-empty cells in the first `c` columns of a
/// row as there are columns.
proof fn lemma_row_cells_len(row: Seq<Seq<char>>, r: int, c: int)
    requires
        c >= 0,
    ensures
        row_cells(row, r, c).len() <= c,
    decreases c,
{
    if c > 0 {
        lemma_row_cells_len(row, r, c - 1);
    }
}

/// There are at most `r * w` non-empty cells in the first `r` rows of a
/// rectangular grid of width `w`.
proof fn lemma_grid_cells_len(grid: Seq<Seq<Seq<char>>>, r: int, w: int)
    requires
        0 <= r <= grid.len(),
        w >= 0,
        forall|i: int| 0 <= i < grid.len() ==> (#[trigger] grid[i]).len() == w,
    ensures
        grid_cells(grid, r).len() <= r * w,
    decreases r,
{
    if r > 0 {
        lemma_grid_cells_len(grid, r - 1, w);
        lemma_row_cells_len(grid[r - 1], r - 1, w);
        assert((r - 1) * w + w == r * w) by (nonlinear_arith);
    }
}

/// The non-empty cells of a row of well-formed names carry well-formed
/// names.
proof fn lemma_row_cells_wf(row: Seq<Seq<char>>, r: int, c: int)
    requires
        0 <= c <= row.len(),
        forall|j: int| 0 <= j < row.len() ==> crate::bytes::wf_text(#[trigger] row[j]),
    ensures
        forall|k: int|
            0 <= k < row_cells(row, r, c).len() ==> crate::bytes::wf_text(
                (#[trigger] row_cells(row, r, c)[k]).0,
            ),
    decreases c,
{
    if c > 0 {
        lemma_row_cells_wf(row, r, c - 1);
        assert forall|k: int| 0 <= k < row_cells(row, r, c).len() implies crate::bytes::wf_text(
            (#[trigger] row_cells(row, r, c)[k]).0,
        ) by {
            if k < row_cells(row, r, c - 1).len() {
                assert(row_cells(row, r, c)[k] == row_cells(row, r, c - 1)[k]);
            } else {
                assert(row_cells(row, r, c)[k].0 == row[c - 1]);
            }
        }
    }
}

/// The non-empty cells of a grid of well-formed names carry well-formed
/// names.
pub proof fn lemma_grid_names_wf(grid: Seq<Seq<Seq<char>>>, r: int)
    requires
        0 <= r <= grid.len(),
        forall|i: int, j: int|
            0 <= i < grid.len() && 0 <= j < grid[i].len() ==> crate::bytes::wf_text(
                #[trigger] grid[i][j],
            ),
    ensures
        forall|k: int|
            0 <= k < grid_cells(grid, r).len() ==> crate::bytes::wf_text(
                (#[trigger] grid_cells(grid, r)[k]).0,
            ),
    decreases r,
{
    if r > 0 {
        lemma_grid_names_wf(grid, r - 1);
        lemma_row_cells_wf(grid[r - 1], r - 1, grid[r - 1].len() as int);
        assert forall|k: int| 0 <= k < grid_cells(grid, r).len() implies crate::bytes::wf_text(
            (#[trigger] grid_cells(grid, r)[k]).0,
        ) by {
            if k < grid_cells(grid, r - 1).len() {
                assert(grid_cells(grid, r)[k] == grid_cells(grid, r - 1)[k]);
            } else {
                assert(grid_cells(grid, r)[k] == row_cells(
                    grid[r - 1],
                    r - 1,
                    grid[r - 1].len() as int,
                )[k - grid_cells(grid, r - 1).len()]);
            }
        }
    }
}

/// Sequential-ids law: the emitted entity ids are exactly `1, 2, 3, ...` in
/// emission order, with no gaps, and there are exactly as many ids as
/// non-empty object-grid cells.
pub proof fn lemma_sequential_ids(es: Seq<Entity>, grid: Seq<Seq<Seq<char>>>)
    requires
        entities_match(es, grid),
    ensures
        es.len() == all_cells(grid).len(),
        forall|k: int| 0 <= k < es.len() ==> (#[trigger] es[k]).entity_number == k + 1,
{
}

/// Coordinate-convention law: every emitted entity is anchored at the
/// center of its cell (half-unit coordinate `2 * cell + 1`), and every
/// emitted tile at its cell's integer origin (half-unit `2 * cell`).
pub proof fn lemma_coordinate_convention(
    es: Seq<Entity>,
    egrid: Seq<Seq<Seq<char>>>,
    ts: Seq<Tile>,
    tgrid: Seq<Seq<Seq<char>>>,
    k: int,
)
    requires
        entities_match(es, egrid),
        tiles_match(ts, tgrid),
    ensures
        0 <= k < es.len() ==> es[k].position.x2 == 2 * all_cells(egrid)[k].2 + 1
            && es[k].position.y2 == 2 * all_cells(egrid)[k].1 + 1,
        0 <= k < ts.len() ==> ts[k].position.x2 == 2 * all_cells(tgrid)[k].2
            && ts[k].position.y2 == 2 * all_cells(tgrid)[k].1,
{
    if 0 <= k < es.len() {
        assert(entity_matches(es[k], all_cells(egrid)[k], k));
    }
    if 0 <= k < ts.len() {
        assert(tile_matches(ts[k], all_cells(tgrid)[k]));
    }
}

/// Rotation law: an emitted entity carries the rotated (south) orientation
/// exactly when it is the underground connector placed at an odd row; every
/// other emitted entity keeps the default orientation.
pub proof fn lemma_rotation_rule(es: Seq<Entity>, grid: Seq<Seq<Seq<char>>>, k: int)
    requires
        entities_match(es, grid),
        0 <= k < es.len(),
    ensures
        es[k].direction == Direction::South <==> (es[k].name@ == rotated_name()
            && all_cells(grid)[k].1 % 2 == 1),
        es[k].direction == Direction::South || es[k].direction == Direction::North,
{
    assert(entity_matches(es[k], all_cells(grid)[k], k));
}

impl Container {
    /// Assemble the layout from the two same-shaped name grids (outer index:
    /// row, inner index: column; an empty string marks an empty cell):
    /// entities from the object grid with sequential ids and center-of-cell
    /// anchors, tiles from the ground grid with whole-cell anchors, plus the
    /// fixed metadata (single stone-wall icon, kind tag, label, and format
    /// version).
    pub fn build(entities: Vec<Vec<&'static str>>, tiles: Vec<Vec<&'static str>>) -> (c: Container)
        requires
            entities@.len() >= 1,
            tiles@.len() >= 1,
            grid_ok(entities.deep_view(), entities@[0]@.len() as int),
            grid_ok(tiles.deep_view(), tiles@[0]@.len() as int),
            entities@.len() * entities@[0]@.len() < usize::MAX,
        ensures
            entities_match(c.blueprint.entities@, entities.deep_view()),
            tiles_match(c.blueprint.tiles@, tiles.deep_view()),
            c.blueprint.icons@.len() == 1,
            c.blueprint.icons@[0].signal.kind == SignalKind::Item,
            c.blueprint.icons@[0].signal.name@ == "stone-wall"@,
            c.blueprint.icons@[0].index == 1,
            c.blueprint.item@ == "blueprint"@,
            c.blueprint.label@ == "Generated Blueprint"@,
            c.blueprint.version == FORMAT_VERSION,
    {
        let ghost eg: Seq<Seq<Seq<char>>> = entities.deep_view();
        let ghost tg: Seq<Seq<Seq<char>>> = tiles.deep_view();
        let ghost w: int = entities@[0]@.len() as int;

        let mut icons: Vec<Icon> = Vec::new();
        icons.push(
            Icon { signal: Signal { kind: SignalKind::Item, name: "stone-wall" }, index: 1 },
        );

        let mut out_entities: Vec<Entity> = Vec::new();
        let mut entity_number: usize = 1;
        let mut row_index: usize = 0;
        while row_index < entities.len()
            invariant
                eg == entities.deep_view(),
                grid_ok(eg, w),
                eg.len() >= 1,
                eg.len() * w < usize::MAX,
                0 <= row_index <= eg.len(),
                out_entities@.len() == grid_cells(eg, row_index as int).len(),
                entity_number == out_entities@.len() + 1,
                forall|k: int|
                    0 <= k < out_entities@.len() ==> entity_matches(
                        #[trigger] out_entities@[k],
                        grid_cells(eg, row_index as int)[k],
                        k,
                    ),
            decreases eg.len() - row_index,
        {
            let row = &entities[row_index];
            let mut column_index: usize = 0;
            while column_index < row.len()
                invariant
                    eg == entities.deep_view(),
                    grid_ok(eg, w),
                    eg.len() >= 1,
                    eg.len() * w < usize::MAX,
                    0 <= row_index < eg.len(),
                    row@.map_values(|s: &'static str| s@) == eg[row_index as int],
                    row@.len() == w,
                    0 <= column_index <= w,
                    out_entities@.len() == grid_cells(eg, row_index as int).len() + row_cells(
                        eg[row_index as int],
                        row_index as int,
                        column_index as int,
                    ).len(),
                    entity_number == out_entities@.len() + 1,
                    forall|k: int|
                        0 <= k < out_entities@.len() ==> entity_matches(
                            #[trigger] out_entities@[k],
                            (grid_cells(eg, row_index as int) + row_cells(
                                eg[row_index as int],
                                row_index as int,
                                column_index as int,
                            ))[k],
                            k,
                        ),
                decreases w - column_index,
            {
                let item = row[column_index];
                proof {
                    lemma_grid_cells_len(eg, row_index as int, w);
                    lemma_row_cells_len(eg[row_index as int], row_index as int, column_index as int);
                    assert((row_index as int) * w + column_index < eg.len() * w)
                        by (nonlinear_arith)
                        requires
                            0 <= (row_index as int) && (row_index as int) < eg.len(),
                            0 <= (column_index as int) && (column_index as int) < w,
                    ;
                    assert(eg[row_index as int][column_index as int] == item@);
                }
                if item.unicode_len() > 0 {
                    let direction = if str_eq(item, "pipe-to-ground") && row_index % 2 == 1 {
                        Direction::South
                    } else {
                        Direction::North
                    };
                    out_entities.push(
                        Entity {
                            entity_number,
                            name: item,
                            position: Position {
                                x2: 2 * (column_index as u64) + 1,
                                y2: 2 * (row_index as u64) + 1,
                            },
                            direction,
                        },
                    );
                    entity_number = entity_number + 1;
                }
                column_index = column_index + 1;
            }
            row_index = row_index + 1;
            proof {
                assert(eg[row_index - 1].len() == w);
            }
        }

        let mut out_tiles: Vec<Tile> = Vec::new();
        let mut row_index: usize = 0;
        let ghost wt: int = tiles@[0]@.len() as int;
        while row_index < tiles.len()
            invariant
                tg == tiles.deep_view(),
                grid_ok(tg, wt),
                0 <= row_index <= tg.len(),
                out_tiles@.len() == grid_cells(tg, row_index as int).len(),
                forall|k: int|
                    0 <= k < out_tiles@.len() ==> tile_matches(
                        #[trigger] out_tiles@[k],
                        grid_cells(tg, row_index as int)[k],
                    ),
            decreases tg.len() - row_index,
        {
            let row = &tiles[row_index];
            let mut column_index: usize = 0;
            while column_index < row.len()
                invariant
                    tg == tiles.deep_view(),
                    grid_ok(tg, wt),
                    0 <= row_index < tg.len(),
                    row@.map_values(|s: &'static str| s@) == tg[row_index as int],
                    row@.len() == wt,
                    0 <= column_index <= wt,
                    out_tiles@.len() == grid_cells(tg, row_index as int).len() + row_cells(
                        tg[row_index as int],
                        row_index as int,
                        column_index as int,
                    ).len(),
                    forall|k: int|
                        0 <= k < out_tiles@.len() ==> tile_matches(
                            #[trigger] out_tiles@[k],
                            (grid_cells(tg, row_index as int) + row_cells(
                                tg[row_index as int],
                                row_index as int,
                                column_index as int,
                            ))[k],
                        ),
                decreases wt - column_index,
            {
                let item = row[column_index];
                proof {
                    assert(tg[row_index as int][column_index as int] == item@);
                }
                if item.unicode_len() > 0 {
                    out_tiles.push(
                        Tile {
                            name: item,
                            position: Position {
                                x2: 2 * (column_index as u64),
                                y2: 2 * (row_index as u64),
                            },
                        },
                    );
                }
                column_index = column_index + 1;
            }
            row_index = row_index + 1;
            proof {
                assert(tg[row_index - 1].len() == wt);
            }
        }

        Container {
            blueprint: Blueprint {
                icons,
                entities: out_entities,
                tiles: out_tiles,
                item: "blueprint",
                label: "Generated Blueprint",
                version: FORMAT_VERSION,
            },
        }
    }
}

} // verus!
