use std::io::Cursor;

use tile_puzzle::assemble::{arrange, assemble_puzzle};
use tile_puzzle::compose::Canvas;
use tile_puzzle::config::GridConfig;
use tile_puzzle::fingerprint::{compute_hash, GrayBuffer, Side};
use tile_puzzle::index::build_hash_map;
use tile_puzzle::ingest::{load_piece, IngestError};
use tile_puzzle::piece::{Piece, RgbBuffer};

fn piece(col: i32, row: i32, tag: u8) -> Piece {
    Piece {
        image: RgbBuffer { width: 1, height: 1, data: vec![tag, tag, tag] },
        col,
        row,
        edge_hashes: [tag as u64, 0, 0, 0],
    }
}

#[test]
fn hash_of_empty_strip_is_zero() {
    assert_eq!(compute_hash(&[]), 0);
}

#[test]
fn hash_exact_values() {
    assert_eq!(compute_hash(&[25]), 215673565331);
    assert_eq!(compute_hash(&[25, 200]), 17739150749937);
}

#[test]
fn hash_ignores_noise_within_quantum() {
    assert_eq!(compute_hash(&[20, 209, 0]), compute_hash(&[29, 200, 9]));
    assert_ne!(compute_hash(&[19]), compute_hash(&[20]));
}

#[test]
fn edge_strips_read_the_borders() {
    let g = GrayBuffer { width: 3, height: 2, pixels: vec![1, 2, 3, 4, 5, 6] };
    assert_eq!(g.edge_strip(Side::Left), vec![1, 4]);
    assert_eq!(g.edge_strip(Side::Top), vec![1, 2, 3]);
    assert_eq!(g.edge_strip(Side::Right), vec![3, 6]);
    assert_eq!(g.edge_strip(Side::Bottom), vec![4, 5, 6]);
    let h = g.compute_edge_hashes();
    assert_eq!(h[2], compute_hash(&[3, 6]));
}

#[test]
fn anchors_recognised_by_size() {
    let config = GridConfig::new(2, 3, 2).unwrap();
    let g = GrayBuffer { width: 3, height: 2, pixels: vec![0; 6] };
    let p = Piece::new(&g, RgbBuffer { width: 3, height: 2, data: vec![0; 18] }, &config);
    assert_eq!((p.col, p.row), (0, 0));
    let g = GrayBuffer { width: 4, height: 2, pixels: vec![0; 8] };
    let p = Piece::new(&g, RgbBuffer { width: 4, height: 2, data: vec![0; 24] }, &config);
    assert_eq!((p.col, p.row), (-1, 0));
    let g = GrayBuffer { width: 4, height: 3, pixels: vec![0; 12] };
    let p = Piece::new(&g, RgbBuffer { width: 4, height: 3, data: vec![0; 36] }, &config);
    assert_eq!((p.col, p.row), (-1, -1));
}

#[test]
fn standard_geometry() {
    let c = GridConfig::standard();
    assert_eq!((c.canvas_width(), c.canvas_height()), (3840, 2160));
    assert_eq!(c.cell_origin(0, 0), (0, 0));
    assert_eq!(c.cell_origin(1, 1), (239, 134));
    assert_eq!(c.cell_origin(15, 15), (3599, 2024));
}

#[test]
fn invalid_configurations_refused() {
    assert!(GridConfig::new(0, 10, 10).is_none());
    assert!(GridConfig::new(4, 0, 10).is_none());
    assert!(GridConfig::new(100_000, 100_000, 1).is_none());
    assert!(GridConfig::new(1000, 1000, 1000).is_none());
    assert!(GridConfig::new(16, 240, 135).is_some());
}

#[test]
fn arrange_puts_origin_then_anchors_first() {
    let mut v = vec![piece(-1, -1, 1), piece(-1, 0, 2), piece(-1, -1, 3), piece(0, 0, 4), piece(0, -1, 5)];
    arrange(&mut v);
    let tags: Vec<u8> = v.iter().map(|p| p.image.data[0]).collect();
    assert_eq!(tags, vec![4, 2, 5, 1, 3]);
}

#[test]
fn index_lists_tiles_in_order() {
    let v = vec![piece(-1, -1, 7), piece(-1, -1, 9), piece(-1, -1, 7)];
    let idx = build_hash_map(&v);
    assert_eq!(idx.lookup(Side::Left, 7), Some(&vec![0, 2]));
    assert_eq!(idx.lookup(Side::Left, 9), Some(&vec![1]));
    assert_eq!(idx.lookup(Side::Left, 8), None);
    assert_eq!(idx.lookup(Side::Top, 0), Some(&vec![0, 1, 2]));
}

#[test]
fn blit_pastes_rectangle() {
    let config = GridConfig::new(2, 2, 2).unwrap();
    let mut canvas = Canvas::new(&config);
    assert_eq!(canvas.data.len(), 48);
    let tile = RgbBuffer { width: 2, height: 1, data: vec![1, 2, 3, 4, 5, 6] };
    canvas.blit(1, 2, &tile);
    let i = ((2 * 4 + 1) * 3) as usize;
    assert_eq!(&canvas.data[i..i + 6], &[1, 2, 3, 4, 5, 6][..]);
    assert_eq!(canvas.data.iter().filter(|&&b| b != 0).count(), 6);
}

#[test]
fn undecodable_bytes_refused() {
    let config = GridConfig::standard();
    assert_eq!(load_piece(b"not an image", &config).unwrap_err(), IngestError::Undecodable);
}

#[test]
fn png_tile_decoded() {
    let config = GridConfig::new(2, 3, 2).unwrap();
    let mut img = image::RgbImage::new(3, 2);
    for (x, y, p) in img.enumerate_pixels_mut() {
        *p = image::Rgb([x as u8 * 40, y as u8 * 90, 7]);
    }
    let mut bytes = Vec::new();
    image::DynamicImage::ImageRgb8(img)
        .write_to(&mut Cursor::new(&mut bytes), image::ImageFormat::Png)
        .unwrap();
    let p = load_piece(&bytes, &config).unwrap();
    assert_eq!((p.image.width, p.image.height), (3, 2));
    assert_eq!((p.col, p.row), (0, 0));
    assert_eq!(&p.image.data[..6], &[0, 0, 7, 40, 0, 7]);
    assert_eq!(&p.image.data[15..18], &[80, 90, 7]);
}

#[test]
fn arrange_orders_anchors_by_coordinate_sum() {
    let mut v = vec![piece(0, 3, 1), piece(-1, 0, 2), piece(2, 0, 3), piece(0, -1, 4), piece(0, 0, 5)];
    arrange(&mut v);
    let tags: Vec<u8> = v.iter().map(|p| p.image.data[0]).collect();
    assert_eq!(tags, vec![5, 2, 4, 3, 1]);
}

fn tagged(col: i32, row: i32, tag: u8, edge_hashes: [u64; 4]) -> Piece {
    Piece { image: RgbBuffer { width: 1, height: 1, data: vec![tag; 3] }, col, row, edge_hashes }
}

#[test]
fn first_listed_candidate_wins_a_collision() {
    let config = GridConfig::new(4, 1, 1).unwrap();
    let mut v = vec![
        tagged(-1, -1, 1, [5, 1, 6, 7]),
        tagged(-1, -1, 2, [5, 2, 8, 9]),
        tagged(0, 0, 3, [0, 0, 5, 99]),
    ];
    assemble_puzzle(&mut v, &config);
    let cells: Vec<(u8, i32, i32)> = v.iter().map(|p| (p.image.data[0], p.col, p.row)).collect();
    assert_eq!(cells, vec![(3, 0, 0), (1, 1, 0), (2, -1, -1)]);
}

#[test]
fn bottom_right_cell_does_not_grow() {
    let config = GridConfig::new(1, 1, 1).unwrap();
    let mut v = vec![tagged(0, 0, 1, [0, 0, 5, 6]), tagged(-1, -1, 2, [5, 6, 0, 0])];
    assemble_puzzle(&mut v, &config);
    assert_eq!((v[1].col, v[1].row), (-1, -1));
}

#[test]
fn empty_tile_set_gives_empty_index() {
    let idx = build_hash_map(&[]);
    assert!(idx.left.is_empty() && idx.top.is_empty() && idx.right.is_empty() && idx.bottom.is_empty());
}

#[test]
fn index_of_two_tiles_is_exact() {
    let a = tagged(-1, -1, 1, [1, 2, 3, 4]);
    let b = tagged(-1, -1, 2, [3, 2, 1, 4]);
    let idx = build_hash_map(&[a, b]);
    let map = |pairs: &[(u64, Vec<usize>)]| pairs.iter().cloned().collect::<std::collections::HashMap<u64, Vec<usize>>>();
    assert_eq!(idx.left, map(&[(1, vec![0]), (3, vec![1])]));
    assert_eq!(idx.top, map(&[(2, vec![0, 1])]));
    assert_eq!(idx.right, map(&[(3, vec![0]), (1, vec![1])]));
    assert_eq!(idx.bottom, map(&[(4, vec![0, 1])]));
}

#[test]
fn parts_without_pixels_refused() {
    let config = GridConfig::new(2, 3, 2).unwrap();
    assert_eq!(Piece::from_parts(0, 2, vec![], vec![], &config).unwrap_err(), IngestError::Empty);
    assert_eq!(Piece::from_parts(3, 0, vec![], vec![], &config).unwrap_err(), IngestError::Empty);
}

#[test]
fn parts_make_the_piece() {
    let config = GridConfig::new(2, 3, 2).unwrap();
    let luma: Vec<u8> = vec![10, 20, 30, 40, 50, 60, 99];
    let rgb: Vec<u8> = (0..20).collect();
    let p = Piece::from_parts(3, 2, luma, rgb, &config).unwrap();
    assert_eq!((p.image.width, p.image.height), (3, 2));
    assert_eq!(p.image.data, (0..18).collect::<Vec<u8>>());
    assert_eq!((p.col, p.row), (0, 0));
    let g = GrayBuffer { width: 3, height: 2, pixels: vec![10, 20, 30, 40, 50, 60] };
    assert_eq!(p.edge_hashes, g.compute_edge_hashes());
    assert_eq!(p.edge_hashes[0], compute_hash(&[10, 40]));
    let q = Piece::from_parts(4, 3, vec![0; 12], vec![0; 36], &config).unwrap();
    assert_eq!((q.col, q.row), (-1, -1));
}
