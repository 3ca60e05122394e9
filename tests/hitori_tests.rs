use hitori::anneal::{
    bools_random_neighbour, flip_at, get_biased_bools, get_random_bools, judge, median, or_bools,
    Search, Verdict,
};
use hitori::codec::{extract_candidate, generate_solution_from_markable_coords};
use hitori::components::get_component_count;
use hitori::grid::{check_shape, find_markables, get_markable_coords, ShapeError};
use hitori::score::bad_points;
use rand::Rng;

fn grid(rows: &[&[u16]]) -> Vec<Vec<u16>> {
    rows.iter().map(|r| r.to_vec()).collect()
}

fn marks(rows: &[&[u8]]) -> Vec<Vec<bool>> {
    rows.iter().map(|r| r.iter().map(|&b| b == 1).collect()).collect()
}

#[test]
fn shape_accepts_square_grid() {
    assert_eq!(check_shape(&grid(&[&[1, 2], &[3, 4]])), Ok(2));
}

#[test]
fn shape_rejects_empty_grid() {
    assert_eq!(check_shape(&Vec::new()), Err(ShapeError::Empty));
}

#[test]
fn shape_rejects_ragged_grid() {
    assert_eq!(check_shape(&grid(&[&[1, 2], &[3]])), Err(ShapeError::ShapeMismatch));
}

#[test]
fn markables_are_cells_with_a_repeat() {
    let g = grid(&[&[1, 1, 2], &[3, 4, 2], &[5, 6, 7]]);
    let m = find_markables(&g);
    assert_eq!(m, marks(&[&[1, 1, 1], &[0, 0, 1], &[0, 0, 0]]));
}

#[test]
fn markables_do_not_depend_on_direction() {
    let g = grid(&[&[1, 2], &[1, 2]]);
    assert_eq!(find_markables(&g), marks(&[&[1, 1], &[1, 1]]));
}

#[test]
fn markable_coords_are_row_major() {
    let m = marks(&[&[0, 1, 0], &[1, 0, 1], &[0, 0, 1]]);
    assert_eq!(get_markable_coords(&m), vec![(0, 1), (1, 0), (1, 2), (2, 2)]);
}

#[test]
fn components_of_all_marked_grid_is_zero() {
    assert_eq!(get_component_count(&marks(&[&[1, 1], &[1, 1]])), 0);
}

#[test]
fn components_of_open_grid_is_one() {
    assert_eq!(get_component_count(&marks(&[&[0, 0, 0], &[0, 0, 0], &[0, 0, 0]])), 1);
}

#[test]
fn components_split_by_a_wall() {
    assert_eq!(get_component_count(&marks(&[&[0, 1, 0], &[0, 1, 0], &[0, 1, 0]])), 2);
}

#[test]
fn components_diagonal_cells_are_apart() {
    assert_eq!(get_component_count(&marks(&[&[0, 1, 0], &[1, 0, 1], &[0, 1, 0]])), 5);
}

#[test]
fn components_winding_region_is_one() {
    let m = marks(&[&[0, 0, 0, 0], &[1, 1, 1, 0], &[0, 0, 0, 0], &[0, 1, 1, 1]]);
    assert_eq!(get_component_count(&m), 1);
}

#[test]
fn components_same_count_on_transposed_marking() {
    let m = marks(&[&[0, 1, 0, 0], &[0, 1, 1, 0], &[1, 0, 0, 1], &[0, 0, 1, 0]]);
    let t: Vec<Vec<bool>> = (0..4).map(|c| (0..4).map(|r| m[r][c]).collect()).collect();
    assert_eq!(get_component_count(&m), get_component_count(&t));
    assert_eq!(get_component_count(&m), 4);
}

#[test]
fn score_of_diagonal_marks_on_equal_grid() {
    let g = grid(&[&[5, 5], &[5, 5]]);
    // no line keeps two unmarked fives and the marks do not touch, but the two
    // unmarked cells meet only at a corner: two regions
    assert_eq!(bad_points(&g, &marks(&[&[1, 0], &[0, 1]])), 1);
    assert_eq!(get_component_count(&marks(&[&[1, 0], &[0, 1]])), 2);
}

#[test]
fn score_of_single_mark_on_equal_grid() {
    let g = grid(&[&[5, 5], &[5, 5]]);
    // row 1 and column 1 each keep two unmarked fives
    assert_eq!(bad_points(&g, &marks(&[&[1, 0], &[0, 0]])), 2);
}

#[test]
fn score_leaves_duplicate_in_second_row() {
    let g = grid(&[&[1, 1], &[2, 2]]);
    assert_eq!(bad_points(&g, &marks(&[&[1, 0], &[0, 0]])), 1);
}

#[test]
fn score_counts_vertical_pair_once() {
    let g = grid(&[&[1, 2], &[3, 4]]);
    assert_eq!(bad_points(&g, &marks(&[&[1, 0], &[1, 0]])), 1);
}

#[test]
fn score_counts_horizontal_pair_once() {
    let g = grid(&[&[1, 2, 3], &[4, 5, 6], &[7, 8, 9]]);
    assert_eq!(bad_points(&g, &marks(&[&[0, 0, 0], &[0, 1, 1], &[0, 0, 0]])), 1);
}

#[test]
fn score_counts_each_repeat_beyond_the_first() {
    let g = grid(&[&[7, 7, 7], &[1, 2, 3], &[4, 5, 6]]);
    assert_eq!(bad_points(&g, &marks(&[&[0, 0, 0], &[0, 0, 0], &[0, 0, 0]])), 2);
}

#[test]
fn score_counts_extra_regions() {
    let g = grid(&[&[1, 2, 3], &[4, 5, 6], &[7, 8, 9]]);
    // the marks cut off the corner (0, 0): no adjacent pair, one extra region
    assert_eq!(bad_points(&g, &marks(&[&[0, 1, 0], &[1, 0, 0], &[0, 0, 0]])), 1);
}

#[test]
fn score_of_fully_marked_single_cell_is_minus_one() {
    let g = grid(&[&[3]]);
    assert_eq!(bad_points(&g, &marks(&[&[1]])), -1);
}

#[test]
fn score_of_valid_three_by_three() {
    let g = grid(&[&[1, 2, 1], &[2, 3, 1], &[3, 1, 2]]);
    let m = marks(&[&[1, 0, 0], &[0, 0, 1], &[0, 0, 0]]);
    assert_eq!(bad_points(&g, &m), 0);
}

#[test]
fn decode_sets_only_chosen_cells() {
    let coords = vec![(0, 1), (1, 0), (2, 2)];
    let sol = generate_solution_from_markable_coords(&vec![true, false, true], &coords, 3);
    assert_eq!(sol, marks(&[&[0, 1, 0], &[0, 0, 0], &[0, 0, 1]]));
}

#[test]
fn decode_of_extracted_flags_round_trips() {
    let g = grid(&[&[1, 1, 2], &[3, 4, 2], &[5, 6, 7]]);
    let coords = get_markable_coords(&find_markables(&g));
    let m = marks(&[&[1, 0, 0], &[0, 0, 1], &[0, 0, 0]]);
    let bits = extract_candidate(&m, &coords);
    assert_eq!(bits, vec![true, false, false, true]);
    assert_eq!(generate_solution_from_markable_coords(&bits, &coords, 3), m);
}

#[test]
fn decode_drops_cells_outside_the_list() {
    let coords = vec![(0, 0)];
    let m = marks(&[&[1, 1], &[0, 0]]);
    let bits = extract_candidate(&m, &coords);
    assert_eq!(generate_solution_from_markable_coords(&bits, &coords, 2), marks(&[&[1, 0], &[0, 0]]));
}

#[test]
fn random_bools_have_requested_length() {
    let mut rng = rand::thread_rng();
    assert_eq!(get_random_bools(17, &mut rng).len(), 17);
    assert_eq!(get_biased_bools(9, &mut rng).len(), 9);
}

#[test]
fn neighbour_flips_exactly_one_flag() {
    let mut rng = rand::thread_rng();
    let x = vec![true, false, false, true, false];
    for _ in 0..50 {
        let y = bools_random_neighbour(&x, &mut rng, 1);
        let diff = x.iter().zip(y.iter()).filter(|(a, b)| a != b).count();
        assert_eq!(diff, 1);
    }
}

#[test]
fn neighbour_with_large_distance_flips_all() {
    let mut rng = rand::thread_rng();
    let x = vec![true, false, true];
    assert_eq!(bools_random_neighbour(&x, &mut rng, 10), vec![false, true, false]);
}

#[test]
fn median_picks_middle_of_sorted_order() {
    let mut v = vec![5, 1, 3];
    assert_eq!(median(&mut v), 3);
    let mut w = vec![4, 1, 3, 2];
    assert_eq!(median(&mut w), 3);
}

#[test]
fn judge_orders_verdicts() {
    assert_eq!(judge(4, 0), Verdict::Solved);
    assert_eq!(judge(4, 2), Verdict::Improved);
    assert_eq!(judge(4, 4), Verdict::Worse);
    assert_eq!(judge(4, 6), Verdict::Worse);
}

fn run_search(g: Vec<Vec<u16>>, max_steps: usize) -> Option<Vec<Vec<bool>>> {
    let mut rng = rand::thread_rng();
    let mut s = Search::new(g, &mut rng);
    let t0 = (s.median.max(0) as f64).sqrt().max(0.5);
    let mut temperature = t0;
    for _ in 0..max_steps {
        match s.step(&mut rng) {
            Verdict::Solved => return Some(s.solution()),
            Verdict::Improved => {}
            Verdict::Worse => {
                let p = ((s.points_x - s.points_y) as f64 / temperature).exp();
                if rng.gen::<f64>() < p {
                    s.accept();
                }
            }
        }
        temperature *= 0.9999;
        if temperature < 0.01 {
            temperature = t0;
        }
    }
    None
}

#[test]
fn search_solves_small_puzzle_twice() {
    let g = grid(&[&[1, 2, 1], &[2, 3, 1], &[3, 1, 2]]);
    for _ in 0..2 {
        let sol = run_search(g.clone(), 200_000).expect("solved");
        assert_eq!(bad_points(&g, &sol), 0);
    }
}

#[test]
fn search_solves_four_by_four_puzzle() {
    let g = grid(&[&[1, 1, 2, 3], &[2, 3, 4, 1], &[3, 4, 1, 1], &[4, 2, 3, 2]]);
    let sol = run_search(g.clone(), 500_000).expect("solved");
    assert_eq!(bad_points(&g, &sol), 0);
}

#[test]
fn or_of_two_flag_vectors() {
    let a = vec![true, false, false, true];
    let b = vec![false, false, true, true];
    assert_eq!(or_bools(&a, &b), vec![true, false, true, true]);
}

#[test]
fn flip_at_given_positions() {
    let x = vec![true, false, false, true];
    assert_eq!(flip_at(&x, &vec![3, 1]), vec![true, true, false, false]);
    assert_eq!(flip_at(&x, &Vec::new()), x);
}

#[test]
fn median_of_sampled_candidates() {
    let mut rng = rand::thread_rng();
    let g = grid(&[&[1, 1], &[2, 3]]);
    let s = Search::new(g, &mut rng);
    // the markable cells are (0, 0) and (0, 1)
    assert_eq!(s.coords, vec![(0, 0), (0, 1)]);
    // scores: none marked 1, first marked 0, both marked 1 (adjacent pair)
    let samples = vec![vec![false, false], vec![true, false], vec![true, true]];
    assert_eq!(s.median_of(&samples), 1);
    let samples = vec![vec![true, false], vec![false, true], vec![false, false]];
    assert_eq!(s.median_of(&samples), 0);
}

#[test]
fn search_starts_with_its_median_and_a_scored_candidate() {
    let mut rng = rand::thread_rng();
    let g = grid(&[&[1, 1], &[2, 3]]);
    let s = Search::new(g.clone(), &mut rng);
    assert!(s.median >= 0 && s.median <= 1);
    let sol = generate_solution_from_markable_coords(&s.x, &s.coords, 2);
    assert_eq!(bad_points(&g, &sol), s.points_x);
}
