use tile_puzzle::assemble::assemble_puzzle;
use tile_puzzle::compose::composite;
use tile_puzzle::config::GridConfig;
use tile_puzzle::fingerprint::GrayBuffer;
use tile_puzzle::piece::{Piece, RgbBuffer};

const FW: u32 = 6;
const FH: u32 = 5;

fn intensity(x: u32, y: u32) -> u8 {
    ((x * 7919 + y * 104729 + x * y * 31 + 17) % 251) as u8
}

fn colour(v: u8) -> [u8; 3] {
    [v, v / 2, 255 - v]
}

/// Cuts the tile of cell (c, r) out of the synthetic source picture.
fn cut(config: &GridConfig, c: u32, r: u32) -> Piece {
    let x0 = FW * c - if c > 0 { 1 } else { 0 };
    let y0 = FH * r - if r > 0 { 1 } else { 0 };
    let w = if c > 0 { FW + 1 } else { FW };
    let h = if r > 0 { FH + 1 } else { FH };
    let mut pixels = Vec::new();
    let mut data = Vec::new();
    for y in y0..y0 + h {
        for x in x0..x0 + w {
            let v = intensity(x, y);
            pixels.push(v);
            data.extend_from_slice(&colour(v));
        }
    }
    let gray = GrayBuffer { width: w, height: h, pixels };
    Piece::new(&gray, RgbBuffer { width: w, height: h, data }, config)
}

fn grid(config: &GridConfig, skip: Option<(u32, u32)>) -> Vec<Piece> {
    let mut v = Vec::new();
    for r in 0..config.grid_size {
        for c in 0..config.grid_size {
            if skip != Some((c, r)) {
                v.push(cut(config, c, r));
            }
        }
    }
    v
}

/// The cell each tile ended in, keyed by the tile's pixel bytes, sorted.
fn assignment(pieces: &[Piece]) -> Vec<(Vec<u8>, i32, i32)> {
    let mut v: Vec<(Vec<u8>, i32, i32)> =
        pieces.iter().map(|p| (p.image.data.clone(), p.col, p.row)).collect();
    v.sort();
    v
}

#[test]
fn two_by_two_reproduces_source() {
    let config = GridConfig::new(2, FW, FH).unwrap();
    let mut pieces = grid(&config, None);
    pieces.reverse();
    assemble_puzzle(&mut pieces, &config);
    for p in &pieces {
        assert!(p.col >= 0 && p.row >= 0);
    }
    let canvas = composite(&pieces, &config);
    assert_eq!(canvas.width, 2 * FW);
    assert_eq!(canvas.height, 2 * FH);
    for y in 0..canvas.height {
        for x in 0..canvas.width {
            let i = ((y * canvas.width + x) * 3) as usize;
            assert_eq!(&canvas.data[i..i + 3], &colour(intensity(x, y))[..], "pixel ({x}, {y})");
        }
    }
}

#[test]
fn shuffled_ingestion_gives_same_cells() {
    let config = GridConfig::new(2, FW, FH).unwrap();
    let base = grid(&config, None);
    let orders: [[usize; 4]; 10] = [
        [0, 1, 2, 3],
        [3, 2, 1, 0],
        [1, 0, 3, 2],
        [2, 3, 0, 1],
        [1, 2, 3, 0],
        [3, 0, 2, 1],
        [2, 0, 1, 3],
        [0, 3, 1, 2],
        [1, 3, 0, 2],
        [3, 1, 0, 2],
    ];
    let mut first: Option<Vec<(Vec<u8>, i32, i32)>> = None;
    for order in orders.iter() {
        let mut pieces: Vec<Piece> = order.iter().map(|&k| base[k].clone()).collect();
        assemble_puzzle(&mut pieces, &config);
        let a = assignment(&pieces);
        match &first {
            None => first = Some(a),
            Some(f) => assert_eq!(f, &a),
        }
    }
    let f = first.unwrap();
    let mut cells: Vec<(i32, i32)> = f.iter().map(|t| (t.1, t.2)).collect();
    cells.sort();
    assert_eq!(cells, vec![(0, 0), (0, 1), (1, 0), (1, 1)]);
}

#[test]
fn every_tile_lands_in_its_cell() {
    let config = GridConfig::new(4, FW, FH).unwrap();
    let mut pieces = grid(&config, None);
    pieces.rotate_left(5);
    assemble_puzzle(&mut pieces, &config);
    for r in 0..4 {
        for c in 0..4 {
            let want = cut(&config, c, r).image.data;
            let p = pieces.iter().find(|p| p.image.data == want).unwrap();
            assert_eq!((p.col, p.row), (c as i32, r as i32));
        }
    }
}

#[test]
fn placed_cells_are_distinct() {
    let config = GridConfig::new(4, FW, FH).unwrap();
    let mut pieces = grid(&config, None);
    pieces.reverse();
    assemble_puzzle(&mut pieces, &config);
    let mut cells: Vec<(i32, i32)> = pieces.iter().map(|p| (p.col, p.row)).collect();
    cells.sort();
    cells.dedup();
    assert_eq!(cells.len(), 16);
}

#[test]
fn matching_borders_are_one_cell_apart() {
    let config = GridConfig::new(3, FW, FH).unwrap();
    let mut pieces = grid(&config, None);
    pieces.swap(0, 7);
    assemble_puzzle(&mut pieces, &config);
    for a in &pieces {
        for b in &pieces {
            if a.edge_hashes[2] == b.edge_hashes[0] {
                assert_eq!((b.col, b.row), (a.col + 1, a.row));
            }
            if a.edge_hashes[3] == b.edge_hashes[1] {
                assert_eq!((b.col, b.row), (a.col, a.row + 1));
            }
        }
    }
}

#[test]
fn origin_ends_at_top_left_pixel() {
    let config = GridConfig::new(3, FW, FH).unwrap();
    let mut pieces = grid(&config, None);
    pieces.reverse();
    assemble_puzzle(&mut pieces, &config);
    assert!(pieces[0].col == 0 && pieces[0].row == 0);
    assert_eq!(pieces[0].rect(&config), (0, 0, FW, FH));
}

#[test]
fn assembling_twice_changes_nothing() {
    let config = GridConfig::new(3, FW, FH).unwrap();
    let mut pieces = grid(&config, None);
    pieces.reverse();
    assemble_puzzle(&mut pieces, &config);
    let once = assignment(&pieces);
    assemble_puzzle(&mut pieces, &config);
    assert_eq!(assignment(&pieces), once);
}

#[test]
fn missing_first_column_tile_leaves_chain_below_blank() {
    let config = GridConfig::new(5, FW, FH).unwrap();
    let mut pieces = grid(&config, Some((0, 3)));
    assemble_puzzle(&mut pieces, &config);
    let below = cut(&config, 0, 4).image.data;
    let lost = pieces.iter().find(|p| p.image.data == below).unwrap();
    assert_eq!((lost.col, lost.row), (0, -1));
    let placed = pieces.iter().filter(|p| p.col >= 0 && p.row >= 0).count();
    assert_eq!(placed, 23);
    let canvas = composite(&pieces, &config);
    // cells (0, 3) and (0, 4), short of the column shared with (1, _) and of
    // the row shared with (0, 2)
    for y in (3 * FH)..(5 * FH) {
        for x in 0..(FW - 1) {
            let i = ((y * canvas.width + x) * 3) as usize;
            assert_eq!(&canvas.data[i..i + 3], &[0, 0, 0][..], "pixel ({x}, {y})");
        }
    }
    let i = ((2 * FH * canvas.width + 1) * 3) as usize;
    assert_eq!(&canvas.data[i..i + 3], &colour(intensity(1, 2 * FH))[..]);
}

#[test]
fn unresolved_tiles_stay_off_canvas() {
    let config = GridConfig::new(2, FW, FH).unwrap();
    let mut pieces = grid(&config, None);
    for p in pieces.iter_mut() {
        p.col = -1;
        p.row = -1;
    }
    assemble_puzzle(&mut pieces, &config);
    assert!(pieces.iter().all(|p| p.col == -1 && p.row == -1));
    let canvas = composite(&pieces, &config);
    assert!(canvas.data.iter().all(|&b| b == 0));
}
