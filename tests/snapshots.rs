use qec_tools::snapshot::snapshot;
use qec_tools::{Input, Instance, Output};

fn input() -> Input {
    Input {
        d: 3,
        c: 2,
        e_d: 0,
        e_m: 0,
        t: 1,
        testcase: vec![Instance {
            x_depolarizing_error: vec![vec![(1, 1)], vec![]],
            z_depolarizing_error: vec![vec![], vec![]],
            measure_error: vec![vec![(1, 0)], vec![]],
        }],
    }
}

#[test]
fn steps_show_errors_then_corrections() {
    let input = input();
    let output = Output {
        x_correction: vec![vec![vec![(1, 1)], vec![]]],
        z_correction: vec![vec![vec![], vec![]]],
    };
    let s0 = snapshot(&input, &output, 0);
    assert!(s0.x_error.get(1, 1));
    assert!(s0.measure_error.get(1, 0));
    assert!(s0.syndrome.get(0, 1));
    assert!(s0.syndrome.get(1, 0));
    assert!(!s0.syndrome.get(1, 2));
    let s1 = snapshot(&input, &output, 1);
    assert!(!s1.x_error.get(1, 1));
    assert!(!s1.swept);
    let last = snapshot(&input, &output, 5);
    assert!(last.swept);
    assert!(!last.x_error.get(0, 0));
}
