use std::collections::HashMap;

use sim3dview::markers::{
    coverage_palette_index, stitch_rings, COVERAGE_AZIMUTH_STEP, DOME_AZIMUTH_STEP,
    DOME_MAX_RING_STRIDE, DOME_MIN_RING_STRIDE,
};

#[test]
fn stitched_band_between_rings_of_different_density_is_watertight() {
    for (n_lower, n_upper) in [(8usize, 8usize), (8, 4), (16, 4), (12, 3)] {
        let lower: Vec<usize> = (0..n_lower).collect();
        let upper: Vec<usize> = (100..100 + n_upper).collect();
        let mut edges: HashMap<(usize, usize), usize> = HashMap::new();
        let mut triangles = 0;
        for (a, b, c) in stitch_rings(&lower, &upper) {
            triangles += 1;
            for (p, q) in [(a, b), (b, c), (c, a)] {
                *edges.entry((p.min(q), p.max(q))).or_default() += 1;
            }
        }
        assert_eq!(triangles, n_lower + n_upper, "{n_lower}/{n_upper}");
        for (&(p, q), &count) in &edges {
            let is_ring_edge = (p < 100 && q < 100) || (p >= 100 && q >= 100);
            assert_eq!(
                count,
                if is_ring_edge { 1 } else { 2 },
                "{n_lower}/{n_upper} edge {p}-{q}"
            );
        }
    }
}

#[test]
fn stitching_needs_a_divisor() {
    let lower: Vec<u32> = (0..6).collect();
    assert!(stitch_rings(&lower, &[1u32, 2, 3, 4]).is_empty());
    assert!(stitch_rings(&lower, &[]).is_empty());
    assert_eq!(stitch_rings(&lower, &[7u32, 8, 9]).len(), 9);
    assert_eq!(stitch_rings(&[0u32, 1], &[5u32])[..], [(0, 1, 5), (1, 0, 5), (5, 5, 0)]);
}

#[test]
fn each_marker_gets_its_own_palette_entry() {
    assert_eq!(coverage_palette_index(1), 0);
    assert_eq!(coverage_palette_index(0), 0);
    let entries: Vec<usize> = (1..=6).map(coverage_palette_index).collect();
    for i in 0..entries.len() {
        for j in i + 1..entries.len() {
            assert_ne!(entries[i], entries[j]);
        }
    }
    assert_eq!(coverage_palette_index(7), 0);
    assert_eq!(coverage_palette_index(u64::MAX), ((u64::MAX - 1) % 6) as usize);
}

#[test]
fn azimuth_steps_divide_a_turn() {
    assert_eq!(6400 % DOME_AZIMUTH_STEP, 0);
    assert_eq!(6400 % COVERAGE_AZIMUTH_STEP, 0);
    assert!(DOME_MIN_RING_STRIDE <= DOME_MAX_RING_STRIDE);
}
