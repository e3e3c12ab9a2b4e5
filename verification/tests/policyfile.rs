use evogait::keylist::{keys_csv, loop_from_slice, parse_key_list};
use evogait::policyfile::{parse_policy_text, policy_json_text};
use evogait::text::{find_text, split_char, trim};

#[test]
fn policy_text_round_trips() {
    let keys = [7u8, 6, 4, 7, 8, 7, 1, 1, 0, 7, 4, 2];
    let hold = 7.617423198f64;
    let k_fb = 1.6931407f64;
    let json = policy_json_text(&keys, &format!("{}", hold), &format!("{}", k_fb), true);
    assert_eq!(
        json,
        "{\"keys\":[7,6,4,7,8,7,1,1,0,7,4,2],\"hold\":7.617423198,\"k_fb\":1.6931407,\"reset\":true}"
    );
    let back = parse_policy_text(&json).expect("parse");
    assert_eq!(back.keys, keys);
    assert_eq!(back.hold.unwrap().parse::<f64>().unwrap().to_bits(), hold.to_bits());
    assert_eq!(back.k_fb.unwrap().parse::<f64>().unwrap().to_bits(), k_fb.to_bits());
    assert!(back.reset);
    let off = policy_json_text(&keys, &format!("{}", 15.2f64), "0", false);
    let back2 = parse_policy_text(&off).expect("parse");
    assert_eq!(back2.hold.as_deref(), Some("15.2"));
    assert_eq!(back2.hold.unwrap().parse::<f64>().unwrap().to_bits(), 15.2f64.to_bits());
    assert!(!back2.reset);
}

#[test]
fn policy_text_needs_twelve_keys() {
    assert!(parse_policy_text("{\"keys\":[1,2,3],\"hold\":6}").is_none());
    assert!(parse_policy_text("no brackets").is_none());
    let p = parse_policy_text("[1,2,3,4,5,6,7,8,9,10,11,12]").expect("keys only");
    assert_eq!(p.keys, [1, 2, 3, 4, 5, 6, 7, 8, 8, 8, 8, 8]);
    assert!(p.hold.is_none() && p.k_fb.is_none() && !p.reset);
}

#[test]
fn value_text_is_cut_and_trimmed() {
    let p = parse_policy_text("{\"keys\":[0,0,0,0,0,0,0,0,0,0,0,0], \"hold\": 3.5 } \"k_fb\":x,\"reset\":true")
        .expect("parse");
    assert_eq!(p.hold.as_deref(), Some("3.5"));
    assert_eq!(p.k_fb.as_deref(), Some("x"));
    assert!(p.reset);
}

#[test]
fn key_lists_skip_bad_tokens() {
    assert_eq!(parse_key_list("1, 2,x,,300,+4, 9"), vec![1, 2, 4, 8]);
    assert_eq!(parse_key_list(""), Vec::<u8>::new());
    assert_eq!(keys_csv(&[0, 1, 2, 3, 4, 5, 6, 7, 8, 10, 100, 255]), "0,1,2,3,4,5,6,7,8,10,100,255");
}

#[test]
fn slice_loops_clamp_and_fill() {
    assert_eq!(loop_from_slice(&[9, 1, 2]), [8, 1, 2, 0, 0, 0, 0, 0, 0, 0, 0, 0]);
    let long: Vec<u8> = (0..20).collect();
    assert_eq!(loop_from_slice(&long), [0, 1, 2, 3, 4, 5, 6, 7, 8, 8, 8, 8]);
}

#[test]
fn text_helpers_match_std() {
    for s in ["  a b \t", "", "   ", "\u{3000}x\u{85}", "x"] {
        assert_eq!(trim(s), s.trim());
    }
    for s in ["a,b,,c", "", ",", "abc"] {
        let mine: Vec<&str> = split_char(s, ',');
        let std: Vec<&str> = s.split(',').collect();
        assert_eq!(mine, std);
    }
    assert_eq!(find_text("ab\"hold\":1", "\"hold\":", 0), Some(2));
    assert_eq!(find_text("abc", "abcd", 0), None);
    assert_eq!(find_text("aaa", "a", 1), Some(1));
}

#[test]
fn rendered_key_list_reads_back() {
    for seed in 1..20u64 {
        let mut rng = evogait::rng::XorShift64::new(seed);
        let keys = evogait::evolve::random_loop(&mut rng);
        let csv = keys_csv(&keys);
        assert_eq!(parse_key_list(&csv), keys.to_vec());
    }
}

#[test]
fn whitespace_and_decimals_match_std() {
    for u in 0u32..0x3100 {
        if let Some(c) = char::from_u32(u) {
            assert_eq!(evogait::text::char_is_whitespace(c), c.is_whitespace(), "{u:#x}");
        }
    }
    for v in 0..=255u8 {
        assert_eq!(evogait::text::u8_text(v), v.to_string());
    }
}
