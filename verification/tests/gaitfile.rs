use evogait::gaitfile::gait_json_text;

fn fmt_body(b: &[f64; 3]) -> String {
    format!("[{:.3},{:.3},{:.3}]", b[0], b[1], b[2])
}

/// The gait file as the trainer has always written it.
fn reference(keys: &[u8; 12], fb: Option<(f64, f64, bool)>, frames: &[[[f64; 3]; 12]], distance: f64, fell: bool) -> String {
    let body_names = [
        "torso", "head", "leftArm", "leftForearm", "leftThigh", "leftCalf", "leftFoot",
        "rightArm", "rightForearm", "rightThigh", "rightCalf", "rightFoot",
    ];
    let names = body_names.iter().map(|n| format!("\"{n}\"")).collect::<Vec<_>>().join(",");
    let keys = keys.iter().map(|k| k.to_string()).collect::<Vec<_>>().join(",");
    let fr = frames
        .iter()
        .map(|f| format!("[{}]", f.iter().map(fmt_body).collect::<Vec<_>>().join(",")))
        .collect::<Vec<_>>()
        .join(",");
    match fb {
        Some((h, k, r)) => format!(
            "{{\"format\":2,\"fps\":30,\"bodies\":[{names}],\"keys\":[{keys}],\"fb\":{{\"hold\":{:.3},\"k_fb\":{:.3},\"reset\":{}}},\"distance\":{distance:.3},\"fell\":{fell},\"frames\":[{fr}]}}",
            h, k, r
        ),
        None => format!(
            "{{\"format\":2,\"fps\":30,\"bodies\":[{names}],\"keys\":[{keys}],\"distance\":{distance:.3},\"fell\":{fell},\"frames\":[{fr}]}}"
        ),
    }
}

fn texts(frames: &[[[f64; 3]; 12]]) -> Vec<Vec<String>> {
    frames.iter().map(|f| f.iter().map(fmt_body).collect()).collect()
}

#[test]
fn gait_file_matches_format_v2() {
    let keys = [3u8, 2, 0, 3, 1, 7, 3, 2, 0, 3, 7, 0];
    let mut frames = Vec::new();
    for t in 0..3 {
        let mut f = [[0.0; 3]; 12];
        for (i, b) in f.iter_mut().enumerate() {
            *b = [t as f64 + i as f64 * 0.5, -1.25 * i as f64, 0.001 * t as f64];
        }
        frames.push(f);
    }
    let got = gait_json_text(&keys, None, &format!("{:.3}", 0.158), false, &texts(&frames));
    assert_eq!(got, reference(&keys, None, &frames, 0.158, false));
    assert!(got.starts_with("{\"format\":2,\"fps\":30,\"bodies\":[\"torso\""));
    let fb = Some((format!("{:.3}", 6.0), format!("{:.3}", 0.8), true));
    let got_fb = gait_json_text(&keys, fb, &format!("{:.3}", -2.5), true, &texts(&frames));
    assert_eq!(got_fb, reference(&keys, Some((6.0, 0.8, true)), &frames, -2.5, true));
}

#[test]
fn gait_file_without_frames() {
    let keys = [0u8; 12];
    let got = gait_json_text(&keys, None, "0.000", true, &Vec::new());
    assert_eq!(got, reference(&keys, None, &[], 0.0, true));
    assert!(got.ends_with("\"fell\":true,\"frames\":[]}"));
}
