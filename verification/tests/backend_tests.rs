use canorus::analysis::Drill;
use canorus::backend::gcodes_of_drill;
use canorus::backend::output;
use canorus::backend::AxisOffsetsConfig;
use canorus::backend::CNCConfig;
use canorus::backend::DrillConfig;
use canorus::backend::EndmillConfig;
use canorus::backend::GCode;
use canorus::backend::Move;

const S: i64 = 1_000_000;

pub fn default_config() -> CNCConfig {
    CNCConfig {
        gap_endmill_and_drill: 100 * S,
        feed_rate: 300 * S,
        offsets: AxisOffsetsConfig { x: 0, y: 0, z: 0, a: 0, b: 0 },
        endmill: EndmillConfig {
            r: 3 * S,
            step: S / 2,
            offset: 10 * S,
            feed_rate: 120 * S,
        },
        drill: DrillConfig { offset: 20 * S, feed_rate: 60 * S },
        cut: false,
    }
}

#[test]
fn feed_word_appears_once_for_coalesced_moves() {
    // Two consecutive feed moves at the same rate where only the first
    // axis changes: the feed word is written exactly once across both
    // lines, and the second line has no motion-mode word either.
    let cfg = default_config();
    let m1 = Move { x: 1 * S, y: 2 * S, z: 3 * S, a: 0, b: 0 };
    let m2 = Move { x: 4 * S, y: 2 * S, z: 3 * S, a: 0, b: 0 };
    let gcodes = vec![GCode::G1(m1, 60 * S), GCode::G1(m2, 60 * S)];
    let mut buf = String::new();
    output(&mut buf, &cfg, &gcodes);
    let lines: Vec<&str> = buf.lines().collect();
    assert_eq!(lines.len(), 2);
    assert_eq!(lines[0], "G1 X1.000Y2.000Z3.000A0.000B0.000F60.000");
    assert_eq!(lines[1], "X4.000");
    let feed_words = buf.matches('F').count();
    assert_eq!(feed_words, 1);
}

#[test]
fn feed_word_reappears_when_rate_changes() {
    let cfg = default_config();
    let m1 = Move { x: 1 * S, y: 0, z: 0, a: 0, b: 0 };
    let m2 = Move { x: 2 * S, y: 0, z: 0, a: 0, b: 0 };
    let gcodes = vec![GCode::G1(m1, 60 * S), GCode::G1(m2, 90 * S)];
    let mut buf = String::new();
    output(&mut buf, &cfg, &gcodes);
    let lines: Vec<&str> = buf.lines().collect();
    assert_eq!(lines.len(), 2);
    assert!(lines[1].starts_with("G1 "));
    assert!(lines[1].ends_with("F90.000"));
}

#[test]
fn drill_job_is_three_motion_lines() {
    let cfg = default_config();
    let drill = Drill { d: 7 * S, theta: 0, slide: 2 * S };
    let codes = gcodes_of_drill(&cfg, &drill, 12 * S);
    assert_eq!(codes.len(), 3);
    let mut buf = String::new();
    output(&mut buf, &cfg, &codes);
    let lines: Vec<&str> = buf.lines().collect();
    assert_eq!(lines.len(), 3);
    assert_eq!(lines[0], "G0 X7.000Y2.000Z32.000A0.000B22.000");
    assert_eq!(lines[1], "G1 Z0.000F60.000");
    assert_eq!(lines[2], "G0 Z32.000");
}

#[test]
fn rapid_word_suppressed_between_rapids() {
    let cfg = default_config();
    let m1 = Move { x: 1 * S, y: 0, z: 0, a: 0, b: 0 };
    let m2 = Move { x: 2 * S, y: 0, z: 0, a: 0, b: 0 };
    let gcodes = vec![GCode::G0(m1), GCode::G0(m2)];
    let mut buf = String::new();
    output(&mut buf, &cfg, &gcodes);
    let lines: Vec<&str> = buf.lines().collect();
    assert!(lines[0].starts_with("G0 "));
    assert_eq!(lines[1], "X2.000");
}

#[test]
fn negative_values_format_with_three_places() {
    let cfg = default_config();
    let m1 = Move { x: -1_234_567, y: 0, z: 0, a: 0, b: 0 };
    let gcodes = vec![GCode::G0(m1)];
    let mut buf = String::new();
    output(&mut buf, &cfg, &gcodes);
    // -1.234567 units rounds to -1.235 at three decimal places.
    assert_eq!(buf, "G0 X-1.235Y0.000Z0.000A0.000B0.000\n");
}

#[test]
fn markers_and_comments() {
    let cfg = default_config();
    let gcodes = vec![
        GCode::Comment("init".to_string()),
        GCode::M02,
        GCode::M03,
    ];
    let mut buf = String::new();
    output(&mut buf, &cfg, &gcodes);
    assert_eq!(buf, ";init\nM02\nM03\n");
}

#[test]
fn cut_pass_steps_inward_in_pairs() {
    let cfg = default_config();
    // target radius 5, stepover 0.5: ceil(5 / 0.5 / 2) = 5 pairs, plus
    // approach, entry and retract.
    let codes = canorus::backend::gcodes_of_cut(&cfg, 40 * S, 5 * S);
    assert_eq!(codes.len(), 3 + 2 * 5);
    let mut buf = String::new();
    output(&mut buf, &cfg, &codes);
    // each pair makes a full turn and returns
    assert_eq!(buf.matches("A360.000").count(), 5);
}

#[test]
fn fixed_point_formatting() {
    let mut s = String::new();
    canorus::fmt::push_fixed(&mut s, 1_234_567);
    s.push(' ');
    canorus::fmt::push_fixed(&mut s, -500);
    s.push(' ');
    canorus::fmt::push_fixed(&mut s, 0);
    s.push(' ');
    canorus::fmt::push_u64(&mut s, 907);
    assert_eq!(s, "1.235 -0.001 0.000 907");
}
