use outlines_core::args::{parse_arg, parse_u};

fn args(list: &[&str]) -> Vec<String> {
    list.iter().map(|a| a.to_string()).collect()
}

#[test]
fn values_follow_their_flags() {
    let a = args(&["--regex", "a+", "--out", "x.svg", "--regex", "b"]);
    assert_eq!(parse_arg(&a, "--regex", "d"), "a+");
    assert_eq!(parse_arg(&a, "--out", "d"), "x.svg");
    assert_eq!(parse_arg(&a, "--freq", "d"), "d");
    assert_eq!(parse_arg(&args(&["--out"]), "--out", "d"), "d");
    assert_eq!(parse_arg(&args(&[]), "--out", "d"), "d");
    assert_eq!(parse_arg(&args(&["--out", "--regex", "a"]), "--regex", "d"), "a");
}

#[test]
fn numbers_are_parsed() {
    let a = args(&["--iters", "12", "--warmup", "+7", "--freq", "x1", "--n", "", "--m", "-3", "--k", "+", "--z", "007"]);
    assert_eq!(parse_u(&a, "--iters", 1), 12);
    assert_eq!(parse_u(&a, "--warmup", 1), 7);
    assert_eq!(parse_u(&a, "--freq", 1), 1);
    assert_eq!(parse_u(&a, "--n", 1), 1);
    assert_eq!(parse_u(&a, "--m", 1), 1);
    assert_eq!(parse_u(&a, "--k", 1), 1);
    assert_eq!(parse_u(&a, "--z", 1), 7);
    assert_eq!(parse_u(&a, "--other", 300), 300);
    let huge = args(&["--iters", "99999999999999999999999999"]);
    assert_eq!(parse_u(&huge, "--iters", 5), 5);
    let most = args(&["--iters", &usize::MAX.to_string()]);
    assert_eq!(parse_u(&most, "--iters", 5), usize::MAX);
}
