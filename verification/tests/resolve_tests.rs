use canorus::decode;
use canorus::resolve::make_db;
use canorus::resolve::parse_data;
use canorus::resolve::parse_header;
use canorus::resolve::find_mechanical_design_geometric_presentation_representation_id;
use canorus::resolve::FaceElement;
use canorus::resolve::ParseError;

/// A complete fixture document: one rectangular blank of 10 x 20 x 30
/// units with one drilled hole, plus the well-known header records.
pub fn fixture() -> String {
    let mut t = String::new();
    t.push_str("ISO-10303-21;\n");
    t.push_str("HEADER;\n");
    t.push_str("FILE_DESCRIPTION((''),'2;1');\n");
    t.push_str(
        "FILE_NAME('D:\\\\Desktop\\\\Part1.stp','2020-01-17T21:29:41+09:00',('Tsuba'),(''),'ST-DEVELOPER v17','Autodesk Inventor 2018','');\n",
    );
    t.push_str("FILE_SCHEMA(('AUTOMOTIVE_DESIGN { 1 0 10303 214 3 1 1 }'));\n");
    t.push_str("ENDSEC;\n");
    t.push_str("DATA;\n");
    t.push_str(
        "#10=MECHANICAL_DESIGN_GEOMETRIC_PRESENTATION_REPRESENTATION('',(#13),#501);\n",
    );
    t.push_str("#13=STYLED_ITEM('',(#14),#20);\n");
    t.push_str("#20=MANIFOLD_SOLID_BREP('',#30);\n");
    t.push_str(
        "#30=CLOSED_SHELL('',(#40,#41,#42,#43,#44,#45,#46,#47,#48,#49,#50));\n",
    );
    // Eleven advanced faces: ten planes and one cylinder.
    let planes: [(&str, &str); 10] = [
        ("(0.,0.,0.)", "(0.,0.,-1.)"),
        ("(0.,0.,30.)", "(0.,0.,1.)"),
        ("(0.,0.,0.)", "(-1.,0.,0.)"),
        ("(10.,0.,0.)", "(1.,0.,0.)"),
        ("(0.,0.,0.)", "(-1.,0.,0.)"),
        ("(10.,0.,0.)", "(1.,0.,0.)"),
        ("(0.,0.,0.)", "(0.,-1.,0.)"),
        ("(0.,20.,0.)", "(0.,1.,0.)"),
        ("(0.,0.,0.)", "(0.,-1.,0.)"),
        ("(0.,20.,0.)", "(0.,1.,0.)"),
    ];
    for (i, (p, n)) in planes.iter().enumerate() {
        let face = 40 + i;
        let surf = 100 + 10 * i;
        let axis = surf + 1;
        let pt = surf + 2;
        let dir = surf + 3;
        let refd = surf + 4;
        t.push_str(&format!("#{}=ADVANCED_FACE('',(#900),#{},.T.);\n", face, surf));
        t.push_str(&format!("#{}=PLANE('',#{});\n", surf, axis));
        t.push_str(&format!(
            "#{}=AXIS2_PLACEMENT_3D('',#{},#{},#{});\n",
            axis, pt, dir, refd
        ));
        t.push_str(&format!("#{}=CARTESIAN_POINT('',{});\n", pt, p));
        t.push_str(&format!("#{}=DIRECTION('',{});\n", dir, n));
        t.push_str(&format!("#{}=DIRECTION('',(1.,0.,0.));\n", refd));
    }
    t.push_str("#50=ADVANCED_FACE('',(#900),#200,.T.);\n");
    t.push_str("#200=CYLINDRICAL_SURFACE('',#201,2.);\n");
    t.push_str("#201=AXIS2_PLACEMENT_3D('',#202,#203,#204);\n");
    t.push_str("#202=CARTESIAN_POINT('',(2.,3.,7.));\n");
    t.push_str("#203=DIRECTION('',(1.,0.,0.));\n");
    t.push_str("#204=DIRECTION('',(0.,1.,0.));\n");
    t.push_str("ENDSEC;\n");
    t.push_str("END-ISO-10303-21;\n");
    t
}

fn prepare_test_data() -> decode::Step {
    decode::parse(&fixture()).unwrap()
}

#[test]
fn test_parse_header() {
    let header = parse_header(prepare_test_data().header).unwrap();
    assert_eq!(header.description, vec![b"".to_vec()]);
    assert_eq!(header.implementation_level, b"2;1".to_vec());
    assert_eq!(header.name, br"D:\\Desktop\\Part1.stp".to_vec());
    assert_eq!(header.time_stamp, b"2020-01-17T21:29:41+09:00".to_vec());
    assert_eq!(header.author, vec![b"Tsuba".to_vec()]);
    assert_eq!(header.organization, vec![b"".to_vec()]);
    assert_eq!(header.preprocessor_version, b"ST-DEVELOPER v17".to_vec());
    assert_eq!(header.originating_system, b"Autodesk Inventor 2018".to_vec());
    assert_eq!(header.authorisation, b"".to_vec());
    assert_eq!(
        header.file_schema,
        vec![b"AUTOMOTIVE_DESIGN { 1 0 10303 214 3 1 1 }".to_vec()]
    );
}

#[test]
fn test_find_mechanical_design_geometric_presentation_representation_id() {
    let data = make_db(prepare_test_data().data).unwrap();
    assert_eq!(
        find_mechanical_design_geometric_presentation_representation_id(&data),
        Ok(10)
    );
}

#[test]
fn test_parse_data() {
    let data = prepare_test_data();
    let faces = parse_data(data.data).unwrap();
    assert_eq!(faces.len(), 11);
    let cylinders = faces
        .iter()
        .filter(|f| matches!(f.elem, FaceElement::Cylinder(_, _)))
        .count();
    assert_eq!(cylinders, 1);
}

#[test]
fn duplicate_id_is_a_data_error() {
    let text = "ISO-10303-21;\nHEADER;\nENDSEC;\nDATA;\n#1=PLANE('',#2);\n#1=PLANE('',#3);\nENDSEC;\nEND-ISO-10303-21;\n";
    let step = decode::parse(text).unwrap();
    assert_eq!(
        make_db(step.data).unwrap_err(),
        ParseError::DataParseError("duplicate id".to_string())
    );
}

#[test]
fn missing_anchor_is_a_data_error() {
    let text = "ISO-10303-21;\nHEADER;\nENDSEC;\nDATA;\n#1=PLANE('',#2);\nENDSEC;\nEND-ISO-10303-21;\n";
    let step = decode::parse(text).unwrap();
    assert_eq!(
        parse_data(step.data).unwrap_err(),
        ParseError::DataParseError(
            "MECHANICAL_DESIGN_GEOMETRIC_PRESENTATION_REPRESENTATION".to_string()
        )
    );
}

#[test]
fn wrong_record_shape_is_a_data_error() {
    // The anchor is present but the styled item has the wrong name.
    let text = "ISO-10303-21;\nHEADER;\nENDSEC;\nDATA;\n#10=MECHANICAL_DESIGN_GEOMETRIC_PRESENTATION_REPRESENTATION('',(#13),#501);\n#13=POINT('',(#14),#20);\nENDSEC;\nEND-ISO-10303-21;\n";
    let step = decode::parse(text).unwrap();
    assert_eq!(
        parse_data(step.data).unwrap_err(),
        ParseError::DataParseError("STYLED_ITEM".to_string())
    );
}
