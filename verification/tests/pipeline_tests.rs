use canorus::backend::AxisOffsetsConfig;
use canorus::backend::CNCConfig;
use canorus::backend::DrillConfig;
use canorus::backend::EndmillConfig;

const S: i64 = 1_000_000;

fn default_config() -> CNCConfig {
    CNCConfig {
        gap_endmill_and_drill: 100 * S,
        feed_rate: 300 * S,
        offsets: AxisOffsetsConfig { x: 0, y: 0, z: 0, a: 0, b: 0 },
        endmill: EndmillConfig {
            r: 3 * S,
            step: S / 2,
            offset: 10 * S,
            feed_rate: 120 * S,
        },
        drill: DrillConfig { offset: 20 * S, feed_rate: 60 * S },
        cut: false,
    }
}

fn fixture() -> String {
    let mut t = String::new();
    t.push_str("ISO-10303-21;\n");
    t.push_str("HEADER;\n");
    t.push_str("FILE_DESCRIPTION((''),'2;1');\n");
    t.push_str(
        "FILE_NAME('D:\\\\Desktop\\\\Part1.stp','2020-01-17T21:29:41+09:00',('Tsuba'),(''),'ST-DEVELOPER v17','Autodesk Inventor 2018','');\n",
    );
    t.push_str("FILE_SCHEMA(('AUTOMOTIVE_DESIGN { 1 0 10303 214 3 1 1 }'));\n");
    t.push_str("ENDSEC;\n");
    t.push_str("DATA;\n");
    t.push_str(
        "#10=MECHANICAL_DESIGN_GEOMETRIC_PRESENTATION_REPRESENTATION('',(#13),#501);\n",
    );
    t.push_str("#13=STYLED_ITEM('',(#14),#20);\n");
    t.push_str("#20=MANIFOLD_SOLID_BREP('',#30);\n");
    t.push_str(
        "#30=CLOSED_SHELL('',(#40,#41,#42,#43,#44,#45,#46,#47,#48,#49,#50));\n",
    );
    let planes: [(&str, &str); 10] = [
        ("(0.,0.,0.)", "(0.,0.,-1.)"),
        ("(0.,0.,30.)", "(0.,0.,1.)"),
        ("(0.,0.,0.)", "(-1.,0.,0.)"),
        ("(10.,0.,0.)", "(1.,0.,0.)"),
        ("(0.,0.,0.)", "(-1.,0.,0.)"),
        ("(10.,0.,0.)", "(1.,0.,0.)"),
        ("(0.,0.,0.)", "(0.,-1.,0.)"),
        ("(0.,20.,0.)", "(0.,1.,0.)"),
        ("(0.,0.,0.)", "(0.,-1.,0.)"),
        ("(0.,20.,0.)", "(0.,1.,0.)"),
    ];
    for (i, (p, n)) in planes.iter().enumerate() {
        let face = 40 + i;
        let surf = 100 + 10 * i;
        t.push_str(&format!("#{}=ADVANCED_FACE('',(#900),#{},.T.);\n", face, surf));
        t.push_str(&format!("#{}=PLANE('',#{});\n", surf, surf + 1));
        t.push_str(&format!(
            "#{}=AXIS2_PLACEMENT_3D('',#{},#{},#{});\n",
            surf + 1,
            surf + 2,
            surf + 3,
            surf + 4
        ));
        t.push_str(&format!("#{}=CARTESIAN_POINT('',{});\n", surf + 2, p));
        t.push_str(&format!("#{}=DIRECTION('',{});\n", surf + 3, n));
        t.push_str(&format!("#{}=DIRECTION('',(1.,0.,0.));\n", surf + 4));
    }
    t.push_str("#50=ADVANCED_FACE('',(#900),#200,.T.);\n");
    t.push_str("#200=CYLINDRICAL_SURFACE('',#201,2.);\n");
    t.push_str("#201=AXIS2_PLACEMENT_3D('',#202,#203,#204);\n");
    t.push_str("#202=CARTESIAN_POINT('',(2.,3.,7.));\n");
    t.push_str("#203=DIRECTION('',(1.,0.,0.));\n");
    t.push_str("#204=DIRECTION('',(0.,1.,0.));\n");
    t.push_str("ENDSEC;\n");
    t.push_str("END-ISO-10303-21;\n");
    t
}

#[test]
fn end_to_end_compile() {
    // A fixture document through the whole pipeline: non-empty program
    // whose first line is a comment and whose last line is the end
    // marker, plus the report of the analyzed solid.
    let cfg = default_config();
    let (gcode, report) = canorus::parse(&fixture(), &cfg).unwrap();
    assert!(!gcode.is_empty());
    let lines: Vec<&str> = gcode.lines().collect();
    assert!(lines[0].starts_with(';'));
    assert_eq!(*lines.last().unwrap(), "M03");
    assert_eq!(report, "drills: 1\nsize: 10.000 20.000 30.000\n");
}

#[test]
fn end_to_end_with_cutting() {
    let mut cfg = default_config();
    cfg.cut = true;
    let (gcode, _) = canorus::parse(&fixture(), &cfg).unwrap();
    let lines: Vec<&str> = gcode.lines().collect();
    assert_eq!(*lines.last().unwrap(), "M03");
    // Cutting adds full-turn indexing moves on the rotational axis.
    assert!(gcode.contains("A360.000"));
}

#[test]
fn syntax_failure_reports_position() {
    let cfg = default_config();
    let err = canorus::parse("not a step file", &cfg).unwrap_err();
    assert_eq!(err, "failed to parser file. irregular syntax at 1:1");
}

#[test]
fn header_and_data_failures_name_their_stage() {
    let cfg = default_config();
    let text = "ISO-10303-21;\nHEADER;\nFILE_SCHEMA(12);\nENDSEC;\nDATA;\nENDSEC;\nEND-ISO-10303-21;\n";
    let err = canorus::parse(text, &cfg).unwrap_err();
    assert_eq!(err, "failed to parser header section: FILE_SCHEMA");
    let text2 = "ISO-10303-21;\nHEADER;\nENDSEC;\nDATA;\nENDSEC;\nEND-ISO-10303-21;\n";
    let err2 = canorus::parse(text2, &cfg).unwrap_err();
    assert_eq!(
        err2,
        "failed to parser data section: MECHANICAL_DESIGN_GEOMETRIC_PRESENTATION_REPRESENTATION"
    );
}
