use qec_tools::render::write_rate;
use qec_tools::text::{parse_rate, split_tokens};
use qec_tools::{parse_input, parse_output, MalformedInput};

#[test]
fn parses_input_text() {
    let text = "3 2 0.01 0.03 1\n2\n0 0 1 1\n0 1 2 2\n1\n0 0 0 0\n1\n0 1 0 1\n";
    let input = parse_input(text).unwrap();
    assert_eq!((input.d, input.c, input.e_d, input.e_m, input.t), (3, 2, 10, 30, 1));
    let inst = &input.testcase[0];
    assert_eq!(inst.x_depolarizing_error, vec![vec![(1, 1)], vec![(2, 2)]]);
    assert_eq!(inst.z_depolarizing_error, vec![vec![(0, 0)], vec![]]);
    assert_eq!(inst.measure_error, vec![vec![], vec![(0, 1)]]);
}

#[test]
fn rejects_malformed_input() {
    assert_eq!(parse_input("3 2 0.01"), Err(MalformedInput));
    assert_eq!(parse_input("3 1 0.01 0.03 1 1 0 0 1"), Err(MalformedInput));
    assert_eq!(parse_input("3 1 0.01 0.03 1 1 0 0 5 5 0 0"), Err(MalformedInput));
    assert_eq!(parse_input("4 1 0.01 0.03 1 0 0 0"), Err(MalformedInput));
    assert_eq!(parse_input("3 1 0.01 0.03 1 1 2 0 0 0 0 0"), Err(MalformedInput));
    assert!(parse_input("3 1 0 0 1 0 0 0").is_ok());
}

#[test]
fn empty_output_means_no_corrections() {
    let out = parse_output("", 3, 2).unwrap();
    assert_eq!(out.x_correction, vec![vec![vec![]; 3]; 2]);
    assert_eq!(out.z_correction, vec![vec![vec![]; 3]; 2]);
}

#[test]
fn parses_output_text() {
    let out = parse_output("2\n0 1 0 0\n1 0 2 2\n1\n1 1 5 7\n", 2, 2).unwrap();
    assert_eq!(out.x_correction[0], vec![vec![], vec![(0, 0)]]);
    assert_eq!(out.x_correction[1], vec![vec![(2, 2)], vec![]]);
    assert_eq!(out.z_correction[1][1], vec![(5, 7)]);
    assert_eq!(parse_output("1\n2 0 0 0\n0\n", 2, 2), Err(MalformedInput));
    assert_eq!(parse_output("1\n0 0 0\n", 2, 2), Err(MalformedInput));
}

#[test]
fn rates_in_thousandths() {
    let r = |s: &str| parse_rate(&s.as_bytes().to_vec());
    assert_eq!(r("0.001"), Some(1));
    assert_eq!(r("0.03"), Some(30));
    assert_eq!(r("0.1"), Some(100));
    assert_eq!(r("0"), Some(0));
    assert_eq!(r("1"), Some(1000));
    assert_eq!(r("0.0500"), Some(50));
    assert_eq!(r("1.5"), None);
    assert_eq!(r("0.0001"), None);
    assert_eq!(r(".5"), None);
    assert_eq!(r("0."), None);
}

#[test]
fn tokens_split_on_whitespace() {
    let ts = split_tokens(b"  12\t3\n\n45 ");
    assert_eq!(ts, vec![b"12".to_vec(), b"3".to_vec(), b"45".to_vec()]);
}

fn small_input() -> qec_tools::Input {
    qec_tools::Input {
        d: 3,
        c: 2,
        e_d: 10,
        e_m: 0,
        t: 1,
        testcase: vec![qec_tools::Instance {
            x_depolarizing_error: vec![vec![(1, 1)], vec![(2, 2), (0, 0)]],
            z_depolarizing_error: vec![vec![], vec![]],
            measure_error: vec![vec![], vec![(0, 1)]],
        }],
    }
}

#[test]
fn writes_input_text() {
    let text = small_input().to_text().unwrap();
    let expected = "3 2 0.01 0 1\n3\n0 0 1 1\n0 1 2 2\n0 1 0 0\n0\n1\n0 1 0 1\n";
    assert_eq!(String::from_utf8(text).unwrap(), expected);
}

#[test]
fn written_text_reads_back() {
    let input = small_input();
    let text = String::from_utf8(input.to_text().unwrap()).unwrap();
    assert_eq!(parse_input(&text), Ok(input));
    let generated = qec_tools::gen(777);
    let text = String::from_utf8(generated.to_text().unwrap()).unwrap();
    assert_eq!(parse_input(&text), Ok(generated));
}

#[test]
fn rates_written_shortest() {
    let w = |v: u32| {
        let mut out = vec![];
        write_rate(&mut out, v);
        String::from_utf8(out).unwrap()
    };
    assert_eq!(w(1), "0.001");
    assert_eq!(w(30), "0.03");
    assert_eq!(w(100), "0.1");
    assert_eq!(w(250), "0.25");
    assert_eq!(w(0), "0");
    assert_eq!(w(1000), "1");
}
