use vstd::prelude::*;
use crate::assemble::{
    arranged, lemma_arranged_origin_first, lemma_of_rank_first, assembled, covers_below, covers_right, expanded, fits_below, fits_right, placed_by, same_cell,
    same_tile, terminal,
};
use crate::config::GridConfig;
use crate::piece::Piece;

verus! {

/// The cell of tile `i` of `s`.
pub open spec fn cell(s: Seq<Piece>, i: int) -> (int, int) {
    (s[i].col as int, s[i].row as int)
}

/// `pos` lays the tiles of `s` out on a `grid_size` square: one cell per tile,
/// no cell twice; one tile's left (top) border repeats another's right
/// (bottom) border exactly when it sits just right of (below) it; and a tile
/// starts as an anchor of the first column (row) exactly when it lies there.
pub open spec fn consistent_layout(s: Seq<Piece>, pos: Seq<(int, int)>, grid_size: int) -> bool {
    &&& pos.len() == s.len()
    &&& forall|i: int|
        0 <= i < s.len() ==> 0 <= (#[trigger] pos[i]).0 < grid_size && 0 <= pos[i].1 < grid_size
    &&& forall|i: int, j: int| 0 <= i < s.len() && 0 <= j < s.len() && i != j ==> #[trigger] pos[i] != #[trigger] pos[j]
    &&& forall|i: int, j: int|
        0 <= i < s.len() && 0 <= j < s.len() && i != j ==> (#[trigger] fits_right(s, i, j) <==> pos[j] == (
            pos[i].0 + 1,
            pos[i].1,
        ))
    &&& forall|i: int, j: int|
        0 <= i < s.len() && 0 <= j < s.len() && i != j ==> (#[trigger] fits_below(s, i, j) <==> pos[j] == (
            pos[i].0,
            pos[i].1 + 1,
        ))
    &&& forall|i: int|
        0 <= i < s.len() ==> (#[trigger] s[i]).col == (if pos[i].0 == 0 { 0int } else { -1int }) && s[i].row == (
            if pos[i].1 == 0 { 0int } else { -1int })
}

/// Every placed tile sits in its cell of a consistent layout.
pub proof fn lemma_placed_in_layout(
    before: Seq<Piece>,
    after: Seq<Piece>,
    pos: Seq<(int, int)>,
    grid_size: int,
    i: int,
)
    requires
        consistent_layout(before, pos, grid_size),
        assembled(before, after, grid_size),
        0 <= i < after.len(),
        after[i].resolved(),
    ensures
        cell(after, i) == pos[i],
    decreases after[i].col + after[i].row,
{
    assert(same_tile(before[i], after[i]));
    if same_cell(before[i], after[i]) {
        assert(before[i].col == 0 || before[i].col == -1);
    } else {
        let k = choose|k: int| 0 <= k < after.len() && placed_by(after, k, i, grid_size);
        assert(same_tile(before[k], after[k]));
        assert(same_cell(before[k], after[k]) || exists|q: int| 0 <= q < after.len() && placed_by(after, q, k, grid_size));
        lemma_placed_in_layout(before, after, pos, grid_size, k);
        if fits_right(after, k, i) && after[i].col == after[k].col + 1 && after[i].row == after[k].row {
            assert(fits_right(before, k, i));
        } else {
            assert(fits_below(before, k, i));
        }
    }
}

/// No two tiles end in one cell, when the tiles have a consistent layout.
pub proof fn lemma_cells_distinct(
    before: Seq<Piece>,
    after: Seq<Piece>,
    pos: Seq<(int, int)>,
    grid_size: int,
    i: int,
    j: int,
)
    requires
        consistent_layout(before, pos, grid_size),
        assembled(before, after, grid_size),
        0 <= i < after.len(),
        0 <= j < after.len(),
        i != j,
        after[i].resolved(),
        after[j].resolved(),
    ensures
        cell(after, i) != cell(after, j),
{
    lemma_placed_in_layout(before, after, pos, grid_size, i);
    lemma_placed_in_layout(before, after, pos, grid_size, j);
}

/// A placed tile is grown from, when the origin heads the order.
proof fn lemma_placed_expanded(before: Seq<Piece>, after: Seq<Piece>, pos: Seq<(int, int)>, grid_size: int, i: int)
    requires
        consistent_layout(before, pos, grid_size),
        assembled(before, after, grid_size),
        forall|k: int| 0 <= k < before.len() && (#[trigger] before[k]).is_origin() ==> k == 0,
        0 <= i < after.len(),
        after[i].resolved(),
    ensures
        expanded(before, after, i),
{
    assert(same_tile(before[i], after[i]));
    if before[i].resolved() {
        assert(before[i].col == 0 || before[i].col == -1);
        assert(before[i].is_origin());
    }
}

/// Two placed tiles whose borders match sit side by side: when a tile's
/// right (bottom) border repeats in another tile's left (top) border, that
/// other tile is placed too and lands one column to the right (one row
/// below), provided the tiles have a consistent layout and the origin heads
/// the traversal order.
pub proof fn lemma_matching_borders_adjacent(
    before: Seq<Piece>,
    after: Seq<Piece>,
    pos: Seq<(int, int)>,
    grid_size: int,
    i: int,
    j: int,
)
    requires
        consistent_layout(before, pos, grid_size),
        assembled(before, after, grid_size),
        forall|k: int| 0 <= k < before.len() && (#[trigger] before[k]).is_origin() ==> k == 0,
        0 <= i < after.len(),
        0 <= j < after.len(),
        i != j,
        after[i].resolved(),
    ensures
        fits_right(after, i, j) ==> after[j].resolved() && cell(after, j) == (cell(after, i).0 + 1, cell(after, i).1),
        fits_below(after, i, j) ==> after[j].resolved() && cell(after, j) == (cell(after, i).0, cell(after, i).1 + 1),
{
    lemma_placed_in_layout(before, after, pos, grid_size, i);
    lemma_placed_expanded(before, after, pos, grid_size, i);
    assert(same_tile(before[i], after[i]) && same_tile(before[j], after[j]));
    if fits_right(after, i, j) {
        assert(fits_right(before, i, j));
        assert(!terminal(after[i], grid_size));
        assert(covers_right(after, i));
        if !after[j].resolved() {
            let k = choose|k: int| 0 <= k < after.len() && k != i && #[trigger] fits_right(after, i, k) && after[k].col == after[i].col + 1 && after[k].row == after[i].row;
            assert(after[k].resolved());
            assert(same_tile(before[k], after[k]));
            assert(fits_right(before, i, k));
            assert(pos[k] == pos[j]);
        }
        lemma_placed_in_layout(before, after, pos, grid_size, j);
    }
    if fits_below(after, i, j) {
        assert(fits_below(before, i, j));
        assert(!terminal(after[i], grid_size));
        assert(covers_below(after, i));
        if !after[j].resolved() {
            let k = choose|k: int| 0 <= k < after.len() && k != i && #[trigger] fits_below(after, i, k) && after[k].col == after[i].col && after[k].row == after[i].row + 1;
            assert(after[k].resolved());
            assert(same_tile(before[k], after[k]));
            assert(fits_below(before, i, k));
            assert(pos[k] == pos[j]);
        }
        lemma_placed_in_layout(before, after, pos, grid_size, j);
    }
}

/// The origin tile keeps the top-left cell, whose rectangle starts at canvas
/// pixel (0, 0).
pub proof fn lemma_origin_at_corner(before: Seq<Piece>, after: Seq<Piece>, config: GridConfig, i: int)
    requires
        assembled(before, after, config.grid_size as int),
        0 <= i < before.len(),
        before[i].is_origin(),
    ensures
        after[i].is_origin(),
        config.cell_x(after[i].col as int) == 0,
        config.cell_y(after[i].row as int) == 0,
{
    assert(same_tile(before[i], after[i]));
}

/// Some tile of the layout lies in cell (`c`, `r`).
pub open spec fn occupied(pos: Seq<(int, int)>, c: int, r: int) -> bool {
    exists|i: int| 0 <= i < pos.len() && pos[i] == (c, r)
}

/// Cell (`c`, `r`) is joined to the top-left cell by a path of occupied
/// cells that steps only right or down.
pub open spec fn reachable(pos: Seq<(int, int)>, c: int, r: int) -> bool
    decreases c + r,
{
    if c < 0 || r < 0 {
        false
    } else {
        &&& occupied(pos, c, r)
        &&& {
            ||| c == 0 && r == 0
            ||| c > 0 && reachable(pos, c - 1, r)
            ||| r > 0 && reachable(pos, c, r - 1)
        }
    }
}

proof fn lemma_resolved_reachable(
    before: Seq<Piece>,
    after: Seq<Piece>,
    pos: Seq<(int, int)>,
    grid_size: int,
    i: int,
)
    requires
        consistent_layout(before, pos, grid_size),
        assembled(before, after, grid_size),
        0 <= i < after.len(),
        after[i].resolved(),
    ensures
        reachable(pos, pos[i].0, pos[i].1),
    decreases after[i].col + after[i].row,
{
    lemma_placed_in_layout(before, after, pos, grid_size, i);
    assert(same_tile(before[i], after[i]));
    if same_cell(before[i], after[i]) {
        assert(before[i].col == 0 || before[i].col == -1);
        assert(pos[i] == (0int, 0int));
        assert(occupied(pos, 0, 0));
    } else {
        let k = choose|k: int| 0 <= k < after.len() && placed_by(after, k, i, grid_size);
        assert(same_tile(before[k], after[k]));
        assert(same_cell(before[k], after[k]) || exists|q: int| 0 <= q < after.len() && placed_by(after, q, k, grid_size));
        lemma_resolved_reachable(before, after, pos, grid_size, k);
        lemma_placed_in_layout(before, after, pos, grid_size, k);
        assert(occupied(pos, pos[i].0, pos[i].1));
    }
}

proof fn lemma_reachable_resolved(
    before: Seq<Piece>,
    after: Seq<Piece>,
    pos: Seq<(int, int)>,
    grid_size: int,
    c: int,
    r: int,
    i: int,
)
    requires
        consistent_layout(before, pos, grid_size),
        assembled(before, after, grid_size),
        forall|k: int| 0 <= k < before.len() && (#[trigger] before[k]).is_origin() ==> k == 0,
        reachable(pos, c, r),
        0 <= i < after.len(),
        pos[i] == (c, r),
    ensures
        after[i].resolved(),
    decreases c + r,
{
    assert(same_tile(before[i], after[i]));
    if c == 0 && r == 0 {
        assert(before[i].resolved());
    } else if c > 0 && reachable(pos, c - 1, r) {
        let k = choose|k: int| 0 <= k < pos.len() && pos[k] == (c - 1, r);
        lemma_reachable_resolved(before, after, pos, grid_size, c - 1, r, k);
        assert(fits_right(before, k, i));
        assert(same_tile(before[k], after[k]));
        assert(fits_right(after, k, i));
        lemma_matching_borders_adjacent(before, after, pos, grid_size, k, i);
    } else {
        assert(r > 0 && reachable(pos, c, r - 1));
        assert(occupied(pos, c, r - 1));
        let k = choose|k: int| 0 <= k < pos.len() && pos[k] == (c, r - 1);
        lemma_reachable_resolved(before, after, pos, grid_size, c, r - 1, k);
        assert(fits_below(before, k, i));
        assert(same_tile(before[k], after[k]));
        assert(fits_below(after, k, i));
        lemma_matching_borders_adjacent(before, after, pos, grid_size, k, i);
    }
}

/// The cell a tile ends in is fixed by the layout alone: its own cell when
/// that cell is reachable from the top-left one through occupied cells,
/// else the coordinates it started with. Neither depends on the order in
/// which the tiles came in.
pub proof fn lemma_outcome_determined(
    before: Seq<Piece>,
    after: Seq<Piece>,
    pos: Seq<(int, int)>,
    grid_size: int,
    i: int,
)
    requires
        consistent_layout(before, pos, grid_size),
        assembled(before, after, grid_size),
        forall|k: int| 0 <= k < before.len() && (#[trigger] before[k]).is_origin() ==> k == 0,
        0 <= i < after.len(),
    ensures
        reachable(pos, pos[i].0, pos[i].1) ==> cell(after, i) == pos[i],
        !reachable(pos, pos[i].0, pos[i].1) ==> same_cell(before[i], after[i]),
{
    if reachable(pos, pos[i].0, pos[i].1) {
        lemma_reachable_resolved(before, after, pos, grid_size, pos[i].0, pos[i].1, i);
        lemma_placed_in_layout(before, after, pos, grid_size, i);
    } else {
        if after[i].resolved() {
            lemma_resolved_reachable(before, after, pos, grid_size, i);
        }
        if !same_cell(before[i], after[i]) {
            let k = choose|k: int| 0 <= k < after.len() && placed_by(after, k, i, grid_size);
            assert(after[i].resolved());
        }
    }
}

/// What `assemble_puzzle` leaves of a tile set with a consistent layout is
/// fixed by the layout alone: each tile ends in its own cell when that cell
/// is reachable from the top-left one, and keeps its starting coordinates
/// otherwise, in whatever order the tiles came in.
pub proof fn lemma_assembly_determined(
    input: Seq<Piece>,
    output: Seq<Piece>,
    pos: Seq<(int, int)>,
    config: GridConfig,
    i: int,
)
    requires
        consistent_layout(arranged(input), pos, config.grid_size as int),
        assembled(arranged(input), output, config.grid_size as int),
        0 <= i < output.len(),
    ensures
        reachable(pos, pos[i].0, pos[i].1) ==> cell(output, i) == pos[i],
        !reachable(pos, pos[i].0, pos[i].1) ==> same_cell(arranged(input)[i], output[i]),
{
    let a = arranged(input);
    assert forall|k: int, j: int|
        0 <= k < a.len() && 0 <= j < a.len() && (#[trigger] a[k]).is_origin() && (#[trigger] a[j]).is_origin()
            implies k == j by {
        if k != j {
            assert(pos[k] != pos[j]);
        }
    }
    lemma_arranged_origin_first(input);
    lemma_outcome_determined(a, output, pos, config.grid_size as int, i);
}

/// `lemma_matching_borders_adjacent` for what `assemble_puzzle` leaves: with
/// a consistent layout, a placed tile's right (bottom) border repeated in
/// another tile's left (top) border puts that tile, placed, one column to
/// the right (one row below).
pub proof fn lemma_assembly_neighbours(
    input: Seq<Piece>,
    output: Seq<Piece>,
    pos: Seq<(int, int)>,
    config: GridConfig,
    i: int,
    j: int,
)
    requires
        consistent_layout(arranged(input), pos, config.grid_size as int),
        assembled(arranged(input), output, config.grid_size as int),
        0 <= i < output.len(),
        0 <= j < output.len(),
        i != j,
        output[i].resolved(),
    ensures
        fits_right(output, i, j) ==> output[j].resolved() && cell(output, j) == (cell(output, i).0 + 1, cell(output, i).1),
        fits_below(output, i, j) ==> output[j].resolved() && cell(output, j) == (cell(output, i).0, cell(output, i).1 + 1),
{
    let a = arranged(input);
    assert forall|k: int, q: int|
        0 <= k < a.len() && 0 <= q < a.len() && (#[trigger] a[k]).is_origin() && (#[trigger] a[q]).is_origin()
            implies k == q by {
        if k != q {
            assert(pos[k] != pos[q]);
        }
    }
    lemma_arranged_origin_first(input);
    lemma_matching_borders_adjacent(a, output, pos, config.grid_size as int, i, j);
}

/// When exactly one tile starts as the origin, `assemble_puzzle` leaves it
/// first, still in the top-left cell, whose rectangle starts at canvas pixel
/// (0, 0).
pub proof fn lemma_assembly_origin_first(input: Seq<Piece>, output: Seq<Piece>, config: GridConfig, o: int)
    requires
        0 <= o < input.len(),
        input[o].is_origin(),
        forall|k: int| 0 <= k < input.len() && (#[trigger] input[k]).is_origin() ==> k == o,
        assembled(arranged(input), output, config.grid_size as int),
    ensures
        output.len() > 0,
        same_tile(output[0], input[o]),
        output[0].is_origin(),
        config.cell_x(output[0].col as int) == 0,
        config.cell_y(output[0].row as int) == 0,
{
    lemma_of_rank_first(input, o);
    let a = arranged(input);
    lemma_origin_at_corner(a, output, config, 0);
    assert(same_tile(a[0], output[0]));
}

/// Below an empty cell of the first column nothing in that column is
/// reachable.
pub proof fn lemma_column_gap_unreachable(pos: Seq<(int, int)>, k: int, r: int)
    requires
        !occupied(pos, 0, k),
        0 <= k <= r,
    ensures
        !reachable(pos, 0, r),
    decreases r - k,
{
    if r > k {
        lemma_column_gap_unreachable(pos, k, r - 1);
    }
}

/// When the first-column tile of row `k` is missing, every tile of the
/// first column below it stays where it started (unresolved), so it is left
/// off the canvas.
pub proof fn lemma_assembly_column_gap(
    input: Seq<Piece>,
    output: Seq<Piece>,
    pos: Seq<(int, int)>,
    config: GridConfig,
    k: int,
    i: int,
)
    requires
        consistent_layout(arranged(input), pos, config.grid_size as int),
        assembled(arranged(input), output, config.grid_size as int),
        !occupied(pos, 0, k),
        0 <= k,
        0 <= i < output.len(),
        pos[i].0 == 0,
        pos[i].1 > k,
    ensures
        output[i].col == 0,
        output[i].row == -1,
{
    lemma_column_gap_unreachable(pos, k, pos[i].1);
    lemma_assembly_determined(input, output, pos, config, i);
}

} // verus!
