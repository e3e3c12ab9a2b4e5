use evogait::args::{parse_flag, parse_loop, parse_out, parse_str};

fn args(v: &[&str]) -> Vec<String> {
    v.iter().map(|s| s.to_string()).collect()
}

#[test]
fn flag_values_are_read() {
    let a = args(&["train", "--gens", "50", "--pop", "+12", "--out", "dir"]);
    assert_eq!(parse_flag(&a, "gens", 120), 50);
    assert_eq!(parse_flag(&a, "pop", 24), 12);
    assert_eq!(parse_flag(&a, "hold", 6), 6);
    assert_eq!(parse_out(&a), "dir");
}

#[test]
fn bad_numbers_fall_through_to_later_flags() {
    let a = args(&["--gens", "x", "--gens", " 7", "--gens", "9"]);
    assert_eq!(parse_flag(&a, "gens", 1), 9);
    let b = args(&["--gens", "-3"]);
    assert_eq!(parse_flag(&b, "gens", 4), 4);
    let c = args(&["--gens", "99999999999999999999999"]);
    assert_eq!(parse_flag(&c, "gens", 4), 4);
    let d = args(&["--gens"]);
    assert_eq!(parse_flag(&d, "gens", 4), 4);
}

#[test]
fn first_string_flag_wins() {
    let a = args(&["--model", "full", "--model", "toy"]);
    assert_eq!(parse_str(&a, "--model", "toy"), "full");
    assert_eq!(parse_str(&a, "--policy", "loop"), "loop");
    let b = args(&["--model"]);
    assert_eq!(parse_str(&b, "--model", "toy"), "toy");
    assert_eq!(parse_out(&b), "out");
}

#[test]
fn seed_loop_needs_twelve_keys() {
    let a = args(&["--seed-loop", "7,5,2,7,1,1,7,7,3,1,6,6"]);
    assert_eq!(parse_loop(&a), Some([7, 5, 2, 7, 1, 1, 7, 7, 3, 1, 6, 6]));
    let b = args(&["--seed-loop", " 7, 5 ,2,7,1,1,7,7,3,1,6,99"]);
    assert_eq!(parse_loop(&b), Some([7, 5, 2, 7, 1, 1, 7, 7, 3, 1, 6, 8]));
    let c = args(&["--seed-loop", "7,5,2"]);
    assert_eq!(parse_loop(&c), None);
    let d = args(&["--seed-loop", "7,x,5,2,7,1,1,7,7,3,1,6,6,300"]);
    assert_eq!(parse_loop(&d), Some([7, 5, 2, 7, 1, 1, 7, 7, 3, 1, 6, 6]));
    assert_eq!(parse_loop(&args(&["train"])), None);
    assert_eq!(parse_loop(&args(&["--seed-loop", ""])), None);
}
