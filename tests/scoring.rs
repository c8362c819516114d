use qec_tools::grid::{toggle, Grid};
use qec_tools::score::{base_score, bonus_score, count_measurement_cells};
use qec_tools::syndrome::count_faulty;
use qec_tools::sweep::sweep;
use qec_tools::validate::check_coordinate;
use qec_tools::{judge, validate, Channel, ErrorKind, Input, Instance, Output};

fn toy_input(d: usize, c: usize, x: Vec<Vec<(usize, usize)>>, z: Vec<Vec<(usize, usize)>>) -> Input {
    Input {
        d,
        c,
        e_d: 0,
        e_m: 0,
        t: 1,
        testcase: vec![Instance {
            x_depolarizing_error: x,
            z_depolarizing_error: z,
            measure_error: vec![vec![]; c],
        }],
    }
}

fn empty_output(t: usize, c: usize) -> Output {
    Output {
        x_correction: vec![vec![vec![]; c]; t],
        z_correction: vec![vec![vec![]; c]; t],
    }
}

#[test]
fn clean_toy_lattice_scores_full() {
    let input = toy_input(3, 1, vec![vec![]], vec![vec![]]);
    let output = empty_output(1, 1);
    let gx = Grid::new(3);
    let gz = Grid::new(3);
    let none = Grid { rows: vec![] };
    assert_eq!(count_faulty(&gx, &gz, &none), 0);
    let (rx, rz) = sweep(gx, gz);
    assert!(!rx.get(0, 0));
    assert!(!rz.get(0, 0));
    assert_eq!(judge(&input, &output), (10000, None));
}

#[test]
fn correction_on_measurement_cell_is_refused() {
    let input = toy_input(3, 1, vec![vec![]], vec![vec![]]);
    let mut output = empty_output(1, 1);
    output.x_correction[0][0].push((0, 1));
    let (score, err) = judge(&input, &output);
    assert_eq!(score, 0);
    let e = err.unwrap();
    assert_eq!(e.kind, ErrorKind::NotADataCell);
    assert_eq!(e.channel, Channel::TypeA);
    assert_eq!((e.instance, e.round, e.row, e.col), (0, 0, 0, 1));
}

#[test]
fn correction_outside_lattice_is_refused() {
    let input = toy_input(3, 2, vec![vec![], vec![]], vec![vec![], vec![]]);
    let mut output = empty_output(1, 2);
    output.z_correction[0][1].push((0, 0));
    output.z_correction[0][1].push((4, 0));
    let e = validate(&input, &output).unwrap_err();
    assert_eq!(e.kind, ErrorKind::OutOfBounds);
    assert_eq!(e.channel, Channel::TypeB);
    assert_eq!((e.round, e.index, e.row, e.col), (1, 1, 4, 0));
}

#[test]
fn first_error_follows_round_then_channel_order() {
    let input = toy_input(3, 2, vec![vec![], vec![]], vec![vec![], vec![]]);
    let mut output = empty_output(1, 2);
    output.x_correction[0][1].push((1, 0));
    output.z_correction[0][0].push((0, 5));
    let e = validate(&input, &output).unwrap_err();
    assert_eq!(e.channel, Channel::TypeB);
    assert_eq!(e.round, 0);
    assert_eq!(e.kind, ErrorKind::OutOfBounds);
}

#[test]
fn coordinate_verdicts() {
    assert_eq!(check_coordinate(21, 0, 0), Ok(()));
    assert_eq!(check_coordinate(21, 20, 20), Ok(()));
    assert_eq!(check_coordinate(21, 3, 4), Err(ErrorKind::NotADataCell));
    assert_eq!(check_coordinate(21, 21, 1), Err(ErrorKind::OutOfBounds));
    assert_eq!(check_coordinate(21, 0, 22), Err(ErrorKind::OutOfBounds));
}

#[test]
fn single_uncorrected_error_loses_a_defect_share() {
    let input = toy_input(3, 1, vec![vec![(0, 0)]], vec![vec![]]);
    let output = empty_output(1, 1);
    assert_eq!(count_measurement_cells(3), 4);
    assert_eq!(judge(&input, &output), (3750, None));
}

#[test]
fn corrected_error_scores_full() {
    let input = toy_input(3, 1, vec![vec![(1, 1)]], vec![vec![(2, 2)]]);
    let mut output = empty_output(1, 1);
    output.x_correction[0][0].push((1, 1));
    output.z_correction[0][0].push((2, 2));
    assert_eq!(judge(&input, &output), (10000, None));
}

#[test]
fn stabilizer_residual_is_trivial() {
    // the type-A stabilizer around (1, 0): cells (0, 0), (2, 0), (1, 1)
    let input = toy_input(3, 1, vec![vec![(0, 0), (2, 0), (1, 1)]], vec![vec![]]);
    let output = empty_output(1, 1);
    assert_eq!(judge(&input, &output), (10000, None));
}

#[test]
fn logical_residual_gets_partial_bonus() {
    // a full row of type-A errors leaves no defect but is not trivial
    let input = toy_input(3, 1, vec![vec![(0, 0), (0, 2)]], vec![vec![]]);
    let output = empty_output(1, 1);
    let mut gx = Grid::new(3);
    toggle(&mut gx, &vec![(0, 0), (0, 2)]);
    let none = Grid { rows: vec![] };
    assert_eq!(count_faulty(&gx, &Grid::new(3), &none), 0);
    let (rx, rz) = sweep(gx, Grid::new(3));
    assert!(rx.get(0, 0));
    assert!(!rz.get(0, 0));
    assert_eq!(judge(&input, &output), (7000, None));
}

#[test]
fn both_residuals_nontrivial_get_no_bonus() {
    let x = vec![vec![(0, 0), (0, 2)]];
    let z = vec![vec![(0, 0), (2, 0)]];
    let input = toy_input(3, 1, x, z);
    let output = empty_output(1, 1);
    assert_eq!(judge(&input, &output), (5000, None));
}

#[test]
fn defects_everywhere_score_zero() {
    let x = vec![vec![(0, 0), (2, 0)]];
    let z = vec![vec![(0, 0), (0, 2)]];
    let input = toy_input(3, 1, x, z);
    let output = empty_output(1, 1);
    assert_eq!(judge(&input, &output), (0, None));
}

#[test]
fn base_and_bonus_formulas() {
    assert_eq!(base_score(220, 0), 5000);
    assert_eq!(base_score(220, 1), 4977);
    assert_eq!(base_score(220, 220), 0);
    assert_eq!(base_score(4, 1), 3750);
    assert_eq!(base_score(0, 0), 5000);
    assert_eq!(bonus_score(false, false), 5000);
    assert_eq!(bonus_score(true, false), 2000);
    assert_eq!(bonus_score(false, true), 2000);
    assert_eq!(bonus_score(true, true), 0);
    assert_eq!(count_measurement_cells(21), 220);
}

#[test]
fn toggle_twice_restores_grid() {
    let mut g = Grid::new(5);
    toggle(&mut g, &vec![(0, 0), (3, 1)]);
    let before = g.clone();
    let coords = vec![(1, 1), (4, 4), (1, 1), (2, 0)];
    toggle(&mut g, &coords);
    assert!(g.get(4, 4) && g.get(2, 0) && !g.get(1, 1));
    toggle(&mut g, &coords);
    assert_eq!(g, before);
}

#[test]
fn score_stays_in_bounds_for_generated_input() {
    let input = qec_tools::gen(1234);
    let output = empty_output(input.t, input.c);
    let (score, err) = judge(&input, &output);
    assert!(err.is_none());
    assert!(score >= 0 && score <= 10000 * input.t as i64);
}

#[test]
fn stabilizer_move_keeps_class() {
    // the row (0, 0), (0, 2) with the move around (1, 0) applied on top
    let mut plain = Grid::new(3);
    toggle(&mut plain, &vec![(0, 0), (0, 2)]);
    let mut moved = plain.clone();
    toggle(&mut moved, &vec![(0, 0), (2, 0), (1, 1)]);
    assert_eq!(moved.rows, vec![vec![false, false, true], vec![false, true, false], vec![true, false, false]]);
    let (a, _) = sweep(plain, Grid::new(3));
    let (b, _) = sweep(moved, Grid::new(3));
    assert!(a.get(0, 0));
    assert!(b.get(0, 0));
    let input = toy_input(3, 1, vec![vec![(0, 2), (2, 0), (1, 1)]], vec![vec![]]);
    assert_eq!(judge(&input, &empty_output(1, 1)), (7000, None));
}

#[test]
fn type_b_stabilizer_on_larger_lattice_is_trivial() {
    // the type-B move on column line 1 at position 2: cells (2, 2), (2, 0), (1, 1), (3, 1)
    let z = vec![vec![(2, 2), (2, 0), (1, 1), (3, 1)]];
    let input = toy_input(5, 1, vec![vec![]], z);
    assert_eq!(judge(&input, &empty_output(1, 1)), (10000, None));
}
