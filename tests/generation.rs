use qec_tools::gen;
use qec_tools::generate::severity;

fn sorted_and_on(cells: &Vec<(usize, usize)>, data: bool) -> bool {
    cells.windows(2).all(|w| w[0] < w[1])
        && cells.iter().all(|&(r, c)| r < 21 && c < 21 && ((r + c) % 2 == 0) == data)
}

#[test]
fn same_seed_same_events() {
    let a = gen(42);
    let b = gen(42);
    assert_eq!(a, b);
    let c = gen(100002);
    let d = gen(100002);
    assert_eq!(c, d);
}

#[test]
fn header_follows_seed() {
    let a = gen(0);
    assert_eq!((a.d, a.c, a.t, a.e_d, a.e_m), (21, 100, 1, 1, 10));
    let b = gen(100001);
    assert_eq!(b.t, 100);
    assert_eq!(b.testcase.len(), 100);
    let c = gen(600);
    assert_eq!((c.e_d, c.e_m), (30, 50));
    assert_eq!(severity(4), (50, 100));
}

#[test]
fn generated_rounds_are_well_formed() {
    let input = gen(999);
    assert_eq!((input.e_d, input.e_m), (50, 100));
    let inst = &input.testcase[0];
    let mut any = 0;
    for r in 0..100 {
        assert!(sorted_and_on(&inst.x_depolarizing_error[r], true));
        assert!(sorted_and_on(&inst.z_depolarizing_error[r], true));
        assert!(sorted_and_on(&inst.measure_error[r], false));
        any += inst.x_depolarizing_error[r].len() + inst.measure_error[r].len();
        if r >= 95 {
            assert!(inst.x_depolarizing_error[r].is_empty());
            assert!(inst.z_depolarizing_error[r].is_empty());
        }
    }
    assert!(any > 0);
}

#[test]
fn tier_without_measurement_errors() {
    let input = gen(400);
    assert_eq!((input.e_d, input.e_m), (30, 0));
    for r in 0..100 {
        assert!(input.testcase[0].measure_error[r].is_empty());
    }
}

#[test]
fn choices_map_to_kinds() {
    use_kinds();
}

fn use_kinds() {
    use_kind(0, qec_tools::generate::Depolarizing::TypeA);
    use_kind(1, qec_tools::generate::Depolarizing::TypeB);
    use_kind(2, qec_tools::generate::Depolarizing::Both);
}

fn use_kind(choice: u32, expected: qec_tools::generate::Depolarizing) {
    let k = qec_tools::generate::kind_of_choice(choice);
    assert_eq!(k, expected);
    assert_eq!(k.hits_a(), expected != qec_tools::generate::Depolarizing::TypeB);
    assert_eq!(k.hits_b(), expected != qec_tools::generate::Depolarizing::TypeA);
}
