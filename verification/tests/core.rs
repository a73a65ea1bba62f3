use knit_portrait::grid::{Grid, flip_gray_image, scale_pixels};
use knit_portrait::hooks::generate_circle_coordinates;
use knit_portrait::raster::bresenham_line;
use knit_portrait::score::{LineScore, line_average, compute_line_vals, find_max_index};
use knit_portrait::sequencer::{Config, StringArtError, compute_string_order};

fn grid_from(width: usize, height: usize, data: Vec<u8>) -> Grid {
    Grid::new(width, height, data).expect("dimensions match buffer")
}

fn stripe_grid() -> Grid {
    // 16x16, bright only along the exact diagonal chord from (15,8) to (8,15).
    let mut data = vec![0u8; 256];
    for (x, y) in bresenham_line((15, 8), (8, 15)) {
        data[(y as usize) * 16 + (x as usize)] = 255;
    }
    grid_from(16, 16, data)
}

#[test]
fn hooks_cardinal_points() {
    let c = generate_circle_coordinates(16, 16, 4);
    assert_eq!(c, vec![(15, 8, 0), (8, 15, 1), (1, 8, 2), (8, 1, 3)]);
}

#[test]
fn hooks_octagon_positions() {
    let c = generate_circle_coordinates(200, 300, 8);
    assert_eq!(
        c,
        vec![
            (199, 150, 0),
            (170, 220, 1),
            (100, 249, 2),
            (30, 220, 3),
            (1, 150, 4),
            (30, 80, 5),
            (100, 51, 6),
            (170, 80, 7),
        ]
    );
}

#[test]
fn hooks_count_indices_bounds() {
    let w = 640;
    let h = 480;
    let n = 201;
    let c = generate_circle_coordinates(w, h, n);
    assert_eq!(c.len(), n);
    for (i, &(x, y, idx)) in c.iter().enumerate() {
        assert_eq!(idx, i);
        assert!(1 <= x && x < w);
        assert!(1 <= y && y < h);
    }
}

#[test]
fn raster_endpoints_and_path() {
    let pts = bresenham_line((0, 0), (5, 2));
    assert_eq!(pts, vec![(0, 0), (1, 0), (2, 1), (3, 1), (4, 2), (5, 2)]);
    let back = bresenham_line((5, 2), (0, 0));
    assert_eq!(back.first(), Some(&(5, 2)));
    assert_eq!(back.last(), Some(&(0, 0)));
}

#[test]
fn raster_degenerate_single_pixel() {
    assert_eq!(bresenham_line((3, 3), (3, 3)), vec![(3, 3)]);
}

#[test]
fn raster_symmetry_on_diagonal() {
    let mut fwd = bresenham_line((0, 0), (4, 4));
    let mut bwd = bresenham_line((4, 4), (0, 0));
    fwd.sort();
    bwd.sort();
    assert_eq!(fwd, bwd);
}

#[test]
fn raster_symmetry_on_axis() {
    let mut fwd = bresenham_line((2, 7), (9, 7));
    let mut bwd = bresenham_line((9, 7), (2, 7));
    fwd.sort();
    bwd.sort();
    assert_eq!(fwd, bwd);
}

#[test]
fn flip_inverts_every_pixel() {
    let mut g = grid_from(2, 2, vec![0, 10, 200, 255]);
    flip_gray_image(&mut g);
    assert_eq!(g.data, vec![255, 245, 55, 0]);
    assert_eq!(g.get(0, 1), 55);
    assert_eq!(g.get(1, 0), 245);
}

#[test]
fn decay_rounds_half_up_and_clamps() {
    let mut g = grid_from(3, 1, vec![200, 5, 255]);
    let line = vec![(0, 0), (1, 0), (2, 0)];
    scale_pixels(&mut g, &line, 3, 10);
    // 200*0.3 = 60, 5*0.3 = 1.5 -> 2, 255*0.3 = 76.5 -> 77
    assert_eq!(g.data, vec![60, 2, 77]);
}

#[test]
fn decay_skips_out_of_bounds() {
    let mut g = grid_from(2, 1, vec![100, 100]);
    let line = vec![(-1, 0), (5, 5), (1, 0)];
    scale_pixels(&mut g, &line, 1, 2);
    assert_eq!(g.data, vec![100, 50]);
}

#[test]
fn decay_never_brightens_for_small_multiplier() {
    let mut g = grid_from(4, 1, vec![0, 1, 128, 255]);
    let line = vec![(0, 0), (1, 0), (2, 0), (3, 0), (2, 0)];
    let before = g.data.clone();
    scale_pixels(&mut g, &line, 7, 10);
    for i in 0..4 {
        assert!(g.data[i] <= before[i]);
    }
}

#[test]
fn average_excludes_out_of_bounds() {
    let g = grid_from(4, 1, vec![10, 20, 30, 40]);
    // Horizontal line that runs off the left edge.
    let sc = line_average(&g, (2, 0), (-2, 0));
    // in bounds: (2,0),(1,0),(0,0) -> sum 60, count 3
    assert_eq!(sc.sum, 60);
    assert_eq!(sc.count, 3);
}

#[test]
fn average_exact_sum_and_count() {
    let g = grid_from(3, 3, vec![1, 2, 3, 4, 5, 6, 7, 8, 9]);
    let sc = line_average(&g, (0, 0), (2, 2));
    // diagonal pixels 1, 5, 9
    assert_eq!(sc.sum, 15);
    assert_eq!(sc.count, 3);
}

#[test]
fn line_vals_follow_edge_order() {
    let g = grid_from(3, 1, vec![9, 0, 3]);
    let edges = vec![(2, 0), (0, 0)];
    let vals = compute_line_vals(&g, (0, 0), &edges);
    assert_eq!(vals.len(), 2);
    assert_eq!(vals[0].0, (2, 0));
    assert_eq!(vals[0].1.sum, 12);
    assert_eq!(vals[0].1.count, 3);
    assert_eq!(vals[1].0, (0, 0));
    assert_eq!(vals[1].1.sum, 9);
    assert_eq!(vals[1].1.count, 1);
}

#[test]
fn find_max_takes_greatest_mean() {
    let data = vec![
        ((0, 0), LineScore { sum: 10, count: 2 }),
        ((1, 0), LineScore { sum: 5, count: 1 }),
        ((2, 0), LineScore { sum: 6, count: 1 }),
    ];
    assert_eq!(find_max_index(&data), 2);
}

#[test]
fn find_max_tie_keeps_first() {
    let data = vec![
        ((0, 0), LineScore { sum: 5, count: 1 }),
        ((1, 0), LineScore { sum: 10, count: 2 }),
    ];
    assert_eq!(find_max_index(&data), 0);
}

#[test]
fn rejects_invalid_configuration() {
    let mut g = grid_from(16, 16, vec![0; 256]);
    let cfg = Config { hooks: 1, strings: 5, contrast_num: 3, contrast_den: 10, neighbour_dist: 0 };
    assert_eq!(compute_string_order(&mut g, &cfg), Err(StringArtError::InvalidConfiguration));
    let cfg = Config { hooks: 4, strings: 0, contrast_num: 3, contrast_den: 10, neighbour_dist: 0 };
    assert_eq!(compute_string_order(&mut g, &cfg), Err(StringArtError::InvalidConfiguration));
    let cfg = Config { hooks: 4, strings: 5, contrast_num: 0, contrast_den: 10, neighbour_dist: 0 };
    assert_eq!(compute_string_order(&mut g, &cfg), Err(StringArtError::InvalidConfiguration));
}

#[test]
fn rejects_exhausted_candidates() {
    let mut g = grid_from(16, 16, vec![50; 256]);
    let before = g.data.clone();
    // With 4 hooks the greatest circular distance is 2, so a neighbour
    // distance of 2 leaves no candidate anywhere.
    let cfg = Config { hooks: 4, strings: 5, contrast_num: 3, contrast_den: 10, neighbour_dist: 2 };
    assert_eq!(compute_string_order(&mut g, &cfg), Err(StringArtError::CandidateExhaustion));
    assert_eq!(g.data, before);
}

#[test]
fn end_to_end_bright_diagonal() {
    let mut g = stripe_grid();
    let cfg = Config { hooks: 4, strings: 2, contrast_num: 3, contrast_den: 10, neighbour_dist: 0 };
    let recs = compute_string_order(&mut g, &cfg).expect("run succeeds");
    assert_eq!(recs, vec![(0, 0, 1)]);
}

#[test]
fn sequence_length_is_strings_minus_one() {
    let mut g = grid_from(20, 20, vec![100; 400]);
    let cfg = Config { hooks: 8, strings: 5, contrast_num: 3, contrast_den: 10, neighbour_dist: 1 };
    let recs = compute_string_order(&mut g, &cfg).expect("run succeeds");
    assert_eq!(recs.len(), 4);
}

#[test]
fn neighbour_distance_respected_in_output() {
    let mut g = grid_from(20, 20, vec![100; 400]);
    let n: i32 = 8;
    let d: i32 = 1;
    let cfg = Config { hooks: 8, strings: 5, contrast_num: 3, contrast_den: 10, neighbour_dist: 1 };
    let recs = compute_string_order(&mut g, &cfg).expect("run succeeds");
    assert_eq!(recs, vec![(0, 0, 2), (1, 2, 6), (2, 6, 4), (3, 4, 7)]);
    for &(_, from, to) in &recs {
        let a = (from - to).abs();
        let dist = a.min(n - a);
        assert!(dist > d);
    }
}

#[test]
fn runs_are_deterministic() {
    let make = || {
        let mut data = vec![0u8; 400];
        for i in 0..400 {
            data[i] = ((i * 37 + 11) % 256) as u8;
        }
        grid_from(20, 20, data)
    };
    let cfg = Config { hooks: 12, strings: 9, contrast_num: 3, contrast_den: 10, neighbour_dist: 2 };
    let mut g1 = make();
    let mut g2 = make();
    let r1 = compute_string_order(&mut g1, &cfg).expect("run succeeds");
    let r2 = compute_string_order(&mut g2, &cfg).expect("run succeeds");
    assert_eq!(r1, r2);
    assert_eq!(g1.data, g2.data);
}

#[test]
fn grid_new_checks_buffer_length() {
    assert!(Grid::new(4, 4, vec![0; 15]).is_none());
    assert!(Grid::new(4, 4, vec![0; 16]).is_some());
}
