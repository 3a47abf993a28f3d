use canorus::decode::parse_data_text;
use canorus::decode::parse_value_text;
use canorus::decode::Data;
use canorus::decode::PreprocessError;
use canorus::decode::PreprocessErrorInfo;
use canorus::decode::Value;
use canorus::num::Dec;

#[test]
fn test() {
    assert_eq!(
        parse_value_text("-1.1E-15"),
        Ok(Value::Float(Dec { m: -11, e: -16 }))
    );
    assert_eq!(parse_value_text("10."), Ok(Value::Float(Dec { m: 10, e: 0 })));
    assert_eq!(parse_value_text("#123"), Ok(Value::Id(123)));
    assert_eq!(parse_value_text(".BAR."), Ok(Value::Enum(b"BAR".to_vec())));
    assert_eq!(
        parse_value_text("(1., '', #12)"),
        Ok(Value::Tuple(vec![
            Value::Float(Dec { m: 1, e: 0 }),
            Value::String(Vec::new()),
            Value::Id(12),
        ]))
    );
    assert_eq!(
        parse_value_text("('')"),
        Ok(Value::Tuple(vec![Value::String(Vec::new())]))
    );
    assert_eq!(
        parse_data_text(
            "DATA;\n            #10=MECHANICAL_DESIGN_GEOMETRIC_PRESENTATION_REPRESENTATION('',(#13),#501);\n            ENDSEC;"
        ),
        Ok(vec![Data::Single(
            10,
            b"MECHANICAL_DESIGN_GEOMETRIC_PRESENTATION_REPRESENTATION".to_vec(),
            vec![
                Value::String(Vec::new()),
                Value::Tuple(vec![Value::Id(13)]),
                Value::Id(501),
            ],
        )])
    );
}

#[test]
fn value_literals_round_trip() {
    // Decoding the literal form of each value kind reproduces the tree.
    assert_eq!(parse_value_text("42"), Ok(Value::Int(42)));
    assert_eq!(parse_value_text("-7"), Ok(Value::Int(-7)));
    assert_eq!(parse_value_text("3.25"), Ok(Value::Float(Dec { m: 325, e: -2 })));
    assert_eq!(parse_value_text("2.5E0"), Ok(Value::Float(Dec { m: 25, e: -1 })));
    assert_eq!(parse_value_text(".T."), Ok(Value::Bool(true)));
    assert_eq!(parse_value_text(".F."), Ok(Value::Bool(false)));
    assert_eq!(parse_value_text("*"), Ok(Value::Xplicit));
    assert_eq!(parse_value_text("$"), Ok(Value::Undefined));
    assert_eq!(
        parse_value_text("'ab\\'c'"),
        Ok(Value::String(b"ab\\'c".to_vec()))
    );
    assert_eq!(
        parse_value_text("POINT(1,(2,3))"),
        Ok(Value::Desc(
            b"POINT".to_vec(),
            vec![
                Value::Int(1),
                Value::Tuple(vec![Value::Int(2), Value::Int(3)]),
            ],
        ))
    );
}

#[test]
fn numeric_overflow_is_internal() {
    assert_eq!(
        parse_value_text("99999999999999999999999"),
        Err(PreprocessError::InternalError)
    );
    assert_eq!(
        parse_value_text("#99999999999999999999999999"),
        Err(PreprocessError::InternalError)
    );
}

#[test]
fn syntax_error_carries_position() {
    match parse_value_text("%") {
        Err(PreprocessError::Fail(PreprocessErrorInfo::LineCol((l, c)))) => {
            assert_eq!((l, c), (1, 1));
        }
        other => panic!("unexpected outcome: {:?}", other),
    }
}

#[test]
fn unterminated_string_is_a_span() {
    match parse_value_text("'abc") {
        Err(PreprocessError::Fail(PreprocessErrorInfo::Span(a, b))) => {
            assert_eq!(a, (1, 1));
            assert_eq!(b, (1, 5));
        }
        other => panic!("unexpected outcome: {:?}", other),
    }
}
