use screensplit::partition::{
    create_partitioning, create_virtual_screens, integer_partitioning, partitioning_to_rects,
    select_best, squareness,
};

/// Independent recursive enumeration of the ascending partitions of `n`.
fn brute_force_partitions(min: usize, n: usize) -> Vec<Vec<usize>> {
    let mut out = vec![];
    for first in min..=n {
        if first == n {
            out.push(vec![n]);
        } else {
            for rest in brute_force_partitions(first, n - first) {
                let mut p = vec![first];
                p.extend(rest);
                out.push(p);
            }
        }
    }
    out
}

#[test]
fn integer_partitioning_of_one() {
    assert_eq!(integer_partitioning(1), vec![vec![1]]);
}

#[test]
fn integer_partitioning_of_four() {
    let got = integer_partitioning(4);
    assert_eq!(
        got,
        vec![vec![1, 1, 1, 1], vec![1, 1, 2], vec![1, 3], vec![2, 2], vec![4]]
    );
}

#[test]
fn integer_partitioning_matches_brute_force() {
    // Same partitions, in the same ascending lexicographic order.
    for n in 1..=10 {
        let got = integer_partitioning(n);
        let want = brute_force_partitions(1, n);
        assert_eq!(got, want, "partitions of {n}");
    }
}

#[test]
fn every_partition_sums_to_n() {
    for n in 1..=10 {
        for p in integer_partitioning(n) {
            assert!(!p.is_empty());
            assert!(p.iter().all(|&part| part >= 1));
            assert_eq!(p.iter().sum::<usize>(), n);
        }
    }
}

#[test]
fn rects_of_single_partition() {
    let rects = partitioning_to_rects(10, 10, &[2, 2]);
    assert_eq!(rects, vec![vec![(5, 5), (5, 5)], vec![(5, 5), (5, 5)]]);
}

#[test]
fn rects_use_truncating_division() {
    let rects = partitioning_to_rects(10, 10, &[3]);
    assert_eq!(rects, vec![vec![(3, 10), (3, 10), (3, 10)]]);
}

#[test]
fn squareness_exact_values() {
    let square = partitioning_to_rects(1920, 1080, &[2, 2]);
    assert_eq!(squareness(&square), 4 * 420 * 420);
    let row = partitioning_to_rects(1920, 1080, &[4]);
    assert_eq!(squareness(&row), 4 * 600 * 600);
    let column = partitioning_to_rects(1920, 1080, &[1, 1, 1, 1]);
    assert_eq!(squareness(&column), 4 * 1650 * 1650);
}

#[test]
fn squareness_is_nonnegative() {
    for n in 1..=8 {
        for p in integer_partitioning(n) {
            let rects = partitioning_to_rects(1920, 1080, &p);
            assert!(squareness(&rects) >= 0);
        }
    }
}

#[test]
fn plan_1920_1080_4_picks_square_grid() {
    let grid = create_partitioning(1920, 1080, 4);
    assert_eq!(
        grid,
        vec![vec![(960, 540), (960, 540)], vec![(960, 540), (960, 540)]]
    );
}

#[test]
fn plan_cell_count_equals_sections() {
    for sections in 1..=8 {
        for (w, h) in [(1920, 1080), (100, 100), (7, 3), (1, 1)] {
            let grid = create_partitioning(w, h, sections);
            let cells: usize = grid.iter().map(|row| row.len()).sum();
            assert_eq!(cells, sections, "{w}x{h} into {sections}");
        }
    }
}

#[test]
fn plan_of_one_section_is_whole_screen() {
    assert_eq!(create_partitioning(640, 480, 1), vec![vec![(640, 480)]]);
}

#[test]
fn plan_10_10_3_prefers_mixed_rows() {
    let grid = create_partitioning(10, 10, 3);
    assert_eq!(grid, vec![vec![(10, 5)], vec![(5, 5), (5, 5)]]);
}

#[test]
fn chosen_score_is_minimum_of_all_candidates() {
    for sections in 1..=8 {
        let candidates: Vec<Vec<Vec<(usize, usize)>>> = integer_partitioning(sections)
            .iter()
            .map(|p| partitioning_to_rects(1920, 1080, p))
            .collect();
        let min_score = candidates.iter().map(|c| squareness(c)).min().unwrap();
        let chosen = create_partitioning(1920, 1080, sections);
        assert_eq!(squareness(&chosen), min_score);
    }
}

#[test]
fn plan_breaks_score_ties_by_generation_order() {
    // On a 1x1 screen split in two, the two-row grid and the two-column grid
    // both score 2; the two-row candidate is enumerated first and wins.
    let grid = create_partitioning(1, 1, 2);
    assert_eq!(grid, vec![vec![(1, 0)], vec![(1, 0)]]);
}

#[test]
fn select_best_returns_first_minimum() {
    let candidates = vec![
        partitioning_to_rects(1920, 1080, &[4]),
        partitioning_to_rects(1920, 1080, &[2, 2]),
        partitioning_to_rects(1920, 1080, &[2, 2]),
    ];
    assert_eq!(select_best(&candidates), 1);
}

#[test]
fn virtual_screens_prefix_sums() {
    let grid = create_partitioning(1920, 1080, 4);
    let origins = create_virtual_screens(&grid);
    assert_eq!(
        origins,
        vec![vec![(0, 0), (960, 0)], vec![(0, 540), (960, 540)]]
    );
}

#[test]
fn virtual_screens_uneven_rows() {
    let grid = vec![vec![(10, 5)], vec![(5, 5), (5, 5)]];
    let origins = create_virtual_screens(&grid);
    assert_eq!(origins, vec![vec![(0, 0)], vec![(0, 5), (5, 5)]]);
}
