use parks::gadget::{construct_gadget_regions, construct_gadget_regions_fast};
use parks::polyomino::generate_non_collinear_polyomino;
use parks::ansi::{get_region_ansi, palette_color, PALETTE_LEN};
use parks::bitset::BitSet1024;
use parks::connectivity::{all_regions_connected, is_region_connected};
use parks::generator::{build_level_attempt, choose_center_sweep, order_trees_by_ranking, order_trees_from_center, plan_attempt};
use parks::neighbors::build_neighbor_masks;
use parks::rng::{clock_seed, SimpleRng};
use parks::solver::{count_solutions_fast, solve_fast, solve_fast_internal};
use parks::trees::{generate_tree_solution, generate_tree_solution_fast};
use parks::MAX_N;

#[test]
fn rng_seeding_and_draws_match_splitmix64() {
    let mut rng = SimpleRng::with_seed(42);
    assert_eq!(rng.0, 0xda942042e4dd589f);
    assert_eq!(rng.next_u64(), 3969327973136971395);
    assert_eq!(rng.0, 0x78cb99fc6427d4b4);
    assert_eq!(rng.next_u64(), 14058852246525652077);
    assert_eq!(rng.next_u64(), 17073512163023735550);

    let mut zero = SimpleRng::with_seed(0);
    assert_eq!(zero.next_u64(), 17921031738770882517);
}

#[test]
fn gen_range_scales_the_draw() {
    let mut rng = SimpleRng::with_seed(7);
    // floor(16801846875530667012 * 10 / 2^64) = 9
    assert_eq!(rng.gen_range(0, 10), 9);

    let mut same = SimpleRng::with_seed(7);
    assert_eq!(same.gen_range(5, 5), 5);
    assert_eq!(same.0, SimpleRng::with_seed(7).0, "an empty range draws nothing");
    assert_eq!(same.gen_range(9, 3), 9);

    let mut rng = SimpleRng::with_seed(123);
    for _ in 0..1000 {
        let r = rng.gen_range(3, 8);
        assert!((3..8).contains(&r));
    }
}

#[test]
fn shuffle_permutes() {
    let mut rng = SimpleRng::with_seed(5);
    let mut v: Vec<u32> = (0..20).collect();
    rng.shuffle(&mut v);
    let mut sorted = v.clone();
    sorted.sort();
    assert_eq!(sorted, (0..20).collect::<Vec<u32>>());

    let mut rng = SimpleRng::with_seed(5);
    let mut w: Vec<u32> = (0..10).collect();
    rng.shuffle(&mut w);
    assert_eq!(w, vec![1, 2, 6, 0, 9, 8, 3, 5, 4, 7]);

    let mut one = [7u8];
    let before = rng.0;
    rng.shuffle(&mut one);
    assert_eq!(one, [7u8]);
    assert_eq!(rng.0, before, "a single element is not shuffled");
}

#[test]
fn clock_seed_truncates_or_falls_back() {
    assert_eq!(clock_seed(None), 0x853c49e6748fea9b);
    assert_eq!(clock_seed(Some((1u128 << 64) + 5)), 5);
    let _ = SimpleRng::new();
}

#[test]
fn bitset_set_test_union() {
    let mut a = BitSet1024::default();
    assert!(!a.test_bit(0));
    a.set_bit(0);
    a.set_bit(63);
    a.set_bit(64);
    a.set_bit(1023);
    assert!(a.test_bit(0) && a.test_bit(63) && a.test_bit(64) && a.test_bit(1023));
    assert!(!a.test_bit(1) && !a.test_bit(65));
    assert_eq!(a.0[0], 1 | (1 << 63));
    assert_eq!(a.0[1], 1);
    assert_eq!(a.0[15], 1 << 63);

    let mut b = BitSet1024::default();
    b.set_bit(1);
    b.set_bit(500);
    let u = a.union_with(&b);
    for i in [0usize, 1, 63, 64, 500, 1023] {
        assert!(u.test_bit(i));
    }
    assert!(!u.test_bit(2));

    // only the first words of `b` are merged
    let w = a.union_words(&b, 1);
    assert!(w.test_bit(1));
    assert!(!w.test_bit(500));
    let w7 = a.union_words(&b, 8);
    assert!(w7.test_bit(500));
    assert_eq!(a.union_words(&b, 16), u);
}

#[test]
fn neighbor_masks_cover_the_eight_neighbours_and_the_cell() {
    let masks = build_neighbor_masks(3);
    assert_eq!(masks.len(), 9);
    for i in 0..9 {
        assert!(masks[4].test_bit(i));
    }
    // corner (0, 0): itself, right, below, diagonal
    let corner: Vec<usize> = (0..9).filter(|&i| masks[0].test_bit(i)).collect();
    assert_eq!(corner, vec![0, 1, 3, 4]);
    assert!(!masks[0].test_bit(9));
}

#[test]
fn tree_placements_are_valid_when_found() {
    let mut rng = SimpleRng::with_seed(9);
    let mut cols = [0usize; MAX_N];
    assert!(generate_tree_solution_fast(8, &mut rng, &mut cols));
    let mut seen = [false; 8];
    for r in 0..8 {
        assert!(cols[r] < 8);
        assert!(!seen[cols[r]]);
        seen[cols[r]] = true;
        if r > 0 {
            assert!(cols[r].abs_diff(cols[r - 1]) > 1);
        }
    }
    // no placement exists on a 3 x 3 board
    let mut small = [0usize; MAX_N];
    assert!(!generate_tree_solution_fast(3, &mut rng, &mut small));
    let trees = generate_tree_solution(3, &mut rng);
    assert_eq!(trees.len(), 3);
    for (r, &(tr, tc)) in trees.iter().enumerate() {
        assert_eq!(tr, r);
        assert!(tc < 3);
    }
}

#[test]
fn solver_counts_a_hand_made_board() {
    // 4 x 4 board with regions by quadrant-like blocks; the solutions of a
    // 4 x 4 board with one tree per row and column and no touching are the
    // two placements (1, 3, 0, 2) and (2, 0, 3, 1).
    let regions = vec![
        vec![0, 0, 1, 1],
        vec![0, 0, 1, 1],
        vec![2, 2, 3, 3],
        vec![2, 2, 3, 3],
    ];
    let masks = build_neighbor_masks(4);
    let sols = solve_fast(4, &regions, &masks, 10);
    let mut found: Vec<Vec<(usize, usize)>> = sols
        .iter()
        .map(|s| {
            let mut s = s.clone();
            s.sort();
            s
        })
        .collect();
    found.sort();
    assert_eq!(
        found,
        vec![
            vec![(0, 1), (1, 3), (2, 0), (3, 2)],
            vec![(0, 2), (1, 0), (2, 3), (3, 1)],
        ]
    );
    let limited = solve_fast(4, &regions, &masks, 1);
    assert_eq!(limited.len(), 1);

    let mut flat = [0u16; 1024];
    for r in 0..4 {
        for c in 0..4 {
            flat[r * 4 + c] = regions[r][c] as u16;
        }
    }
    assert_eq!(count_solutions_fast(4, &flat, &masks, 2), 2);
    assert_eq!(count_solutions_fast(4, &flat, &masks, 1), 1);
}

#[test]
fn connectivity_of_hand_made_regions() {
    let split = vec![vec![0, 1, 0], vec![1, 1, 1], vec![2, 2, 2]];
    assert!(!is_region_connected(3, &split, 0));
    assert!(is_region_connected(3, &split, 1));
    assert!(is_region_connected(3, &split, 2));
    assert!(!all_regions_connected(3, &split));
    let joined = vec![vec![0, 0, 1], vec![2, 0, 1], vec![2, 2, 1]];
    assert!(all_regions_connected(3, &joined));
    // a region with no cell counts as connected
    assert!(is_region_connected(3, &joined, 7));
}

#[test]
fn region_colours() {
    assert_eq!(palette_color(0), (190, 55, 55));
    assert_eq!(palette_color(14), (195, 145, 40));
    assert_eq!(PALETTE_LEN, 16);
    assert_eq!(get_region_ansi(0, false), "\x1b[48;2;190;55;55m\x1b[38;2;255;255;255m");
    assert_eq!(get_region_ansi(14, false), "\x1b[48;2;195;145;40m\x1b[38;2;0;0;0m");
    assert_eq!(get_region_ansi(17, true), "\x1b[48;2;35;120;210m\x1b[1;93m");
    assert_eq!(get_region_ansi(3, false), "\x1b[48;2;210;125;20m\x1b[38;2;255;255;255m");
}

#[test]
fn integer_luminance_agrees_with_the_float_formula() {
    for i in 0..PALETTE_LEN {
        let (r, g, b) = palette_color(i);
        let lum = 0.299 * (r as f64) + 0.587 * (g as f64) + 0.114 * (b as f64);
        let black = get_region_ansi(i, false).ends_with("\x1b[38;2;0;0;0m");
        assert_eq!(black, lum > 140.0, "colour {}", i);
    }
}

#[test]
fn centre_sweep_choice_by_difficulty() {
    let mut rng = SimpleRng::with_seed(11);
    let before = rng.0;
    assert_eq!(choose_center_sweep("Easy", &mut rng), None);
    assert_eq!(rng.0, before);

    let mut rng = SimpleRng::with_seed(11);
    let mut probe = SimpleRng::with_seed(11);
    let x = probe.next_u64();
    assert_eq!(choose_center_sweep("Hard", &mut rng), Some(x % 2 == 0));

    let mut rng = SimpleRng::with_seed(11);
    let mut probe = SimpleRng::with_seed(11);
    let coin = probe.next_u64();
    let expected = if coin < (1u64 << 63) { Some(probe.next_u64() % 2 == 0) } else { None };
    assert_eq!(choose_center_sweep("Medium", &mut rng), expected);
    // the coin agrees with a uniform number in 0 .. 1 drawn from the same value
    let unit = (coin >> 11) as f64 * (1.0 / 9007199254740992.0);
    assert_eq!(expected.is_some(), unit < 0.5);
}

#[test]
fn trees_ordered_outward_from_the_centre() {
    // placement by rows: columns 1, 3, 0, 2, 4 on a 5 x 5 board
    let trees = vec![(0, 1), (1, 3), (2, 0), (3, 2), (4, 4)];
    let by_row = order_trees_from_center(5, &trees, true);
    assert_eq!(by_row, vec![(2, 0), (3, 2), (1, 3), (4, 4), (0, 1)]);
    let by_col = order_trees_from_center(5, &trees, false);
    assert_eq!(by_col, vec![(3, 2), (1, 3), (0, 1), (4, 4), (2, 0)]);
}

#[test]
fn attempts_until_an_accepted_hard_puzzle() {
    let mut rng = SimpleRng::with_seed(31);
    let n = 8;
    let masks = build_neighbor_masks(n);
    let mut cols = [0usize; MAX_N];
    let mut accepted = None;
    for _ in 0..2000 {
        let (rows, sweep) = plan_attempt(n, "Hard", &mut rng, &mut cols);
        let trees = order_trees_from_center(n, &rows, sweep.expect("Hard orders from the centre"));
        assert_eq!(trees.len(), n);
        let (regions, sizes, ok) = build_level_attempt(n, &trees, "Hard", &mut rng, &masks);
        assert_eq!(regions.len(), n);
        assert_eq!(sizes.len(), n);
        for (k, &(r, c)) in trees.iter().enumerate() {
            assert_eq!(regions[r][c], k);
        }
        if ok {
            accepted = Some((trees, regions, sizes));
            break;
        }
    }
    let (trees, regions, sizes) = accepted.expect("an 8 x 8 Hard puzzle within 2000 attempts");
    assert!(sizes.iter().all(|&s| s >= 3));
    assert!(all_regions_connected(n, &regions));
    let sols = solve_fast(n, &regions, &masks, 2);
    assert_eq!(sols.len(), 1);
    let mut a = sols[0].clone();
    a.sort();
    let mut b = trees.clone();
    b.sort();
    assert_eq!(a, b);
}

#[test]
fn easy_attempts_keep_rows_order() {
    let mut rng = SimpleRng::with_seed(3);
    let mut cols = [0usize; MAX_N];
    let (trees, sweep) = plan_attempt(6, "Easy", &mut rng, &mut cols);
    assert_eq!(sweep, None);
    for (r, &(tr, tc)) in trees.iter().enumerate() {
        assert_eq!(tr, r);
        assert_eq!(tc, cols[r]);
    }
}

#[test]
fn polyomino_growth_examples() {
    let mut r1 = SimpleRng(5);
    let cells = generate_non_collinear_polyomino(0, 0, 2, &[vec![0, -1], vec![1, -1]], 3, &mut r1);
    assert_eq!(cells, vec![(0, 0), (0, 1), (1, 1)]);
    assert_eq!(r1.0, 0x3c6ef372fe94f82f);
    let mut r2 = SimpleRng(9);
    let single = generate_non_collinear_polyomino(1, 1, 3, &vec![vec![-1; 3]; 3], 1, &mut r2);
    assert_eq!(single, vec![(1, 1)]);
    assert_eq!(r2.0, 9, "a target of one cell draws nothing");
}

#[test]
fn easy_four_by_four_layout() {
    let mut rng = SimpleRng(0);
    let mut regions = [0u16; 1024];
    let mut sizes = [0usize; 32];
    let min = construct_gadget_regions_fast(4, &[(0, 1), (1, 3), (2, 0), (3, 2)], "Easy", &mut rng, &mut regions, &mut sizes);
    assert_eq!(min, 1);
    assert_eq!(&regions[..16], &[2, 0, 1, 1, 2, 2, 1, 1, 2, 3, 3, 3, 3, 3, 3, 3]);
    assert!(regions[16..].iter().all(|&v| v == 0));
    assert_eq!(&sizes[..4], &[1, 4, 4, 7]);
    assert!(sizes[4..].iter().all(|&v| v == 0));
    assert_eq!(rng.0, 0, "Easy draws nothing");
}

#[test]
fn gadget_layout_is_reproducible() {
    let trees = [(0usize, 2usize), (1, 5), (2, 1), (3, 4), (4, 0), (5, 3)];
    for diff in ["Easy", "Medium", "Hard"] {
        let mut first = SimpleRng::with_seed(4242);
        let mut second = SimpleRng::with_seed(4242);
        let mut regions_a = [7u16; 1024];
        let mut regions_b = [0u16; 1024];
        let mut sizes_a = [5usize; 32];
        let mut sizes_b = [0usize; 32];
        let min_a = construct_gadget_regions_fast(6, &trees, diff, &mut first, &mut regions_a, &mut sizes_a);
        let min_b = construct_gadget_regions_fast(6, &trees, diff, &mut second, &mut regions_b, &mut sizes_b);
        assert_eq!(min_a, min_b);
        assert_eq!(&regions_a[..36], &regions_b[..36]);
        assert_eq!(&sizes_a[..6], &sizes_b[..6]);
        assert_eq!(first.0, second.0);
        let mut third = SimpleRng::with_seed(4242);
        let (rows, sizes, min_c) = construct_gadget_regions(6, &trees, diff, &mut third);
        assert_eq!(min_c, min_a);
        for r in 0..6 {
            for c in 0..6 {
                assert_eq!(rows[r][c], regions_a[r * 6 + c] as usize);
            }
        }
        assert_eq!(&sizes[..], &sizes_a[..6]);
        assert_eq!(third.0, first.0);
    }
}

#[test]
fn generated_puzzles_are_solved_by_their_trees() {
    let mut rng = SimpleRng::with_seed(777);
    for &(n, diff) in &[(8usize, "Easy"), (10, "Medium"), (12, "Hard")] {
        let masks = build_neighbor_masks(n);
        let mut cols = [0usize; MAX_N];
        let mut found = None;
        for _ in 0..200_000 {
            let (rows, sweep) = plan_attempt(n, diff, &mut rng, &mut cols);
            let trees = match sweep {
                Some(by_row) => order_trees_from_center(n, &rows, by_row),
                None => order_from_edge_ranked(n, rows, &mut rng),
            };
            let (regions, sizes, ok) = build_level_attempt(n, &trees, diff, &mut rng, &masks);
            if ok {
                found = Some((trees, regions, sizes));
                break;
            }
        }
        let (trees, regions, sizes) = found.expect("a puzzle within 200000 attempts");
        assert_eq!(trees.len(), n);
        let min = if diff == "Easy" { 1 } else { 3 };
        assert!(sizes.iter().all(|&s| s >= min));
        let sols = solve_fast(n, &regions, &masks, 2);
        assert_eq!(sols.len(), 1, "Generated puzzle must have uniquely 1 solution");
        let mut a = sols[0].clone();
        a.sort();
        let mut b = trees.clone();
        b.sort();
        assert_eq!(a, b);
    }
}

fn unit_draw(rng: &mut SimpleRng, low: f64, high: f64) -> f64 {
    let unit = (rng.next_u64() >> 11) as f64 * (1.0 / 9007199254740992.0);
    low + unit * (high - low)
}

// The edge ordering of the command-line generator, in floating point.
fn order_from_edge(n: usize, mut trees: Vec<(usize, usize)>, rng: &mut SimpleRng) -> Vec<(usize, usize)> {
    let edge = rng.gen_range(0, 4);
    let rnd_pos = unit_draw(rng, 0.0, (n - 1) as f64);
    let target = match edge {
        0 => (0.0, rnd_pos),
        1 => ((n - 1) as f64, rnd_pos),
        2 => (rnd_pos, 0.0),
        _ => (rnd_pos, (n - 1) as f64),
    };
    let mut best = 0;
    let mut min_d = f64::MAX;
    for i in 0..n {
        let (r, c) = trees[i];
        let dr = r as f64 - target.0;
        let dc = c as f64 - target.1;
        let d2 = dr * dr + dc * dc + unit_draw(rng, -0.2, 0.2);
        if d2 < min_d {
            min_d = d2;
            best = i;
        }
    }
    trees.swap(0, best);
    let (r0, c0) = trees[0];
    let angle = unit_draw(rng, 0.0, 2.0 * std::f64::consts::PI);
    let (vr, vc) = (angle.cos(), angle.sin());
    let mut rem: Vec<((usize, usize), f64)> = Vec::new();
    for i in 1..n {
        let (r, c) = trees[i];
        let proj = (r as f64 - r0 as f64) * vr + (c as f64 - c0 as f64) * vc + unit_draw(rng, -0.08, 0.08);
        rem.push(((r, c), proj));
    }
    for i in 1..rem.len() {
        let mut j = i;
        while j > 0 && rem[j - 1].1 > rem[j].1 {
            rem.swap(j - 1, j);
            j -= 1;
        }
    }
    for (i, &(t, _)) in rem.iter().enumerate() {
        trees[i + 1] = t;
    }
    trees
}

fn order_from_edge_ranked(n: usize, trees: Vec<(usize, usize)>, rng: &mut SimpleRng) -> Vec<(usize, usize)> {
    let edge = rng.gen_range(0, 4);
    let rnd_pos = unit_draw(rng, 0.0, (n - 1) as f64);
    let target = match edge {
        0 => (0.0, rnd_pos),
        1 => ((n - 1) as f64, rnd_pos),
        2 => (rnd_pos, 0.0),
        _ => (rnd_pos, (n - 1) as f64),
    };
    let mut best = 0;
    let mut min_d = f64::MAX;
    for i in 0..n {
        let (r, c) = trees[i];
        let dr = r as f64 - target.0;
        let dc = c as f64 - target.1;
        let d2 = dr * dr + dc * dc + unit_draw(rng, -0.2, 0.2);
        if d2 < min_d {
            min_d = d2;
            best = i;
        }
    }
    let at = |k: usize| if k == best { trees[0] } else { trees[k] };
    let (r0, c0) = trees[best];
    let angle = unit_draw(rng, 0.0, 2.0 * std::f64::consts::PI);
    let (vr, vc) = (angle.cos(), angle.sin());
    let mut rem: Vec<(usize, f64)> = Vec::new();
    for k in 1..n {
        let (r, c) = at(k);
        let proj = (r as f64 - r0 as f64) * vr + (c as f64 - c0 as f64) * vc + unit_draw(rng, -0.08, 0.08);
        rem.push((k, proj));
    }
    for i in 1..rem.len() {
        let mut j = i;
        while j > 0 && rem[j - 1].1 > rem[j].1 {
            rem.swap(j - 1, j);
            j -= 1;
        }
    }
    let rest: Vec<usize> = rem.iter().map(|&(k, _)| k).collect();
    order_trees_by_ranking(n, &trees, best, &rest).unwrap()
}

#[test]
fn ranking_orders_like_swap_and_sort() {
    for seed in 0..200u64 {
        let n = 5 + (seed as usize % 6);
        let trees: Vec<(usize, usize)> = (0..n).map(|r| (r, (r * 3 + seed as usize) % n)).collect();
        let mut a = SimpleRng::with_seed(seed);
        let mut b = SimpleRng::with_seed(seed);
        let direct = order_from_edge(n, trees.clone(), &mut a);
        let ranked = order_from_edge_ranked(n, trees, &mut b);
        assert_eq!(direct, ranked);
        assert_eq!(a.0, b.0);
    }
}

#[test]
fn ranking_rejects_bad_rankings() {
    let trees = vec![(0, 1), (1, 3), (2, 0), (3, 2)];
    assert_eq!(
        order_trees_by_ranking(4, &trees, 2, &[3, 1, 2]),
        Some(vec![(2, 0), (3, 2), (1, 3), (0, 1)])
    );
    assert_eq!(order_trees_by_ranking(4, &trees, 0, &[1, 2, 3]), Some(trees.clone()));
    assert_eq!(order_trees_by_ranking(4, &trees, 4, &[1, 2, 3]), None);
    assert_eq!(order_trees_by_ranking(4, &trees, 1, &[1, 2]), None);
    assert_eq!(order_trees_by_ranking(4, &trees, 1, &[1, 2, 2]), None);
    assert_eq!(order_trees_by_ranking(4, &trees, 1, &[0, 2, 3]), None);
    assert_eq!(order_trees_by_ranking(4, &trees, 1, &[1, 2, 4]), None);
}

#[test]
fn center_order_of_trees_that_are_no_placement() {
    let trees = [(0usize, 0usize), (1, 0), (2, 0)];
    assert_eq!(order_trees_from_center(3, &trees, true), vec![(1, 0), (2, 0), (0, 0)]);
    assert_eq!(order_trees_from_center(3, &trees, false), vec![(0, 0), (0, 0), (2, 0)]);
}

#[test]
fn grid_and_flat_solvers_give_the_same_list() {
    let n = 4;
    let regions: Vec<Vec<usize>> = (0..n).map(|r| vec![r; n]).collect();
    let masks = build_neighbor_masks(n);
    let mut flat = [0u16; 1024];
    for r in 0..n {
        for c in 0..n {
            flat[r * n + c] = regions[r][c] as u16;
        }
    }
    for limit in 0..4 {
        let by_rows = solve_fast(n, &regions, &masks, limit);
        let by_flat = solve_fast_internal(n, &flat, &masks, limit);
        assert_eq!(by_rows, by_flat);
        assert_eq!(by_rows.len(), limit.min(2));
        assert_eq!(count_solutions_fast(n, &flat, &masks, limit), limit.min(2));
    }
    let both = solve_fast(n, &regions, &masks, 2);
    let first = solve_fast(n, &regions, &masks, 1);
    assert_eq!(first[0], both[0]);
}

#[test]
fn connectivity_is_per_region() {
    assert!(!all_regions_connected(2, &[vec![0, 1], vec![1, 0]]));
    assert!(all_regions_connected(2, &[vec![0, 0], vec![1, 1]]));
    assert!(!is_region_connected(2, &[vec![0, 1], vec![1, 0]], 0));
    assert!(is_region_connected(2, &[vec![0, 0], vec![1, 1]], 1));
}

#[test]
fn large_target_on_a_small_board() {
    let mut rng = SimpleRng::with_seed(3);
    let free = vec![vec![-1i32; 4]; 4];
    let cells = generate_non_collinear_polyomino(1, 1, 4, &free, 100, &mut rng);
    assert_eq!(cells.len(), 16, "the group grows over the whole board");
    let distinct: std::collections::HashSet<_> = cells.iter().collect();
    assert_eq!(distinct.len(), 16);
}
