use base64::Engine;
use std::io::Read;
use std::io::Write;
use vectomancy::encode::{encode_math_data, encode_zlib_base64};
use vectomancy::error::VectomancyError;
use vectomancy::expression::{
    fmt_fourier_argument, fmt_fourier_expression, fmt_polynomial, join_terms, polynomial_term,
    spline_variable, FourierTermText, Number,
};
use vectomancy::scratch::{scratch_blocks, BlockOp};
use vectomancy::svg_text::{
    black_stroke, escape_id, gradient_url, polyline_path, solid_stroke, take_gradient_id, trim_fraction_zeros,
};

fn text_of(v: f64) -> String {
    if v == 0.0 {
        "0".to_string()
    } else {
        v.to_string()
    }
}

fn number(v: f64) -> Number {
    let n = Number::new(v.is_sign_negative(), text_of(v.abs()));
    assert_eq!(n.zero, v == 0.0);
    assert_eq!(n.unit, v.abs() == 1.0);
    assert_eq!(n.text, text_of(v));
    n
}

#[test]
fn number_fields_agree() {
    let n = Number::new(true, "2.5".to_string());
    assert!(!n.zero && !n.unit && n.negative);
    assert_eq!(n.text, "-2.5");
    assert_eq!(n.magnitude, "2.5");
    let z = Number::new(true, "0".to_string());
    assert!(z.zero && !z.unit);
    assert_eq!(z.text, "0");
    let u = Number::new(false, "1".to_string());
    assert!(u.unit && !u.zero);
    assert_eq!(u.text, "1");
    let m = Number::new(true, "1".to_string());
    assert_eq!(m.text, "-1");
    let ten = Number::new(false, "10".to_string());
    assert!(!ten.zero && !ten.unit);
    assert_eq!(ten.text, "10");
}

fn numbers(vs: &[f64]) -> Vec<Number> {
    vs.iter().map(|v| number(*v)).collect()
}

fn term(a: f64, f: f64, p: f64) -> FourierTermText {
    FourierTermText { amplitude: number(a), frequency: number(f), phase: number(p) }
}

fn unpack(encoded: &str) -> String {
    let compressed = base64::engine::general_purpose::STANDARD.decode(encoded).unwrap();
    let mut decoder = flate2::read::ZlibDecoder::new(&compressed[..]);
    let mut decoded = String::new();
    decoder.read_to_string(&mut decoded).unwrap();
    decoded
}

#[test]
fn test_encode_math_data() {
    let json = r#"{"value":"hello world"}"#;
    let encoded = encode_math_data(json).unwrap();
    assert!(!encoded.is_empty());
    assert_eq!(unpack(&encoded), r#"{"value":"hello world"}"#);
}

#[test]
fn test_zlib_base64_export() {
    let json = r#"{"points":[{"x":0.0,"y":0.0}],"closed":false}"#;
    let encoded = encode_zlib_base64(json).unwrap();
    assert!(!encoded.is_empty());
    assert_eq!(unpack(&encoded), json);
}

#[test]
fn packed_text_is_standard_base64_of_zlib() {
    let json = "[1,2,3]";
    let mut enc = flate2::write::ZlibEncoder::new(Vec::new(), flate2::Compression::default());
    enc.write_all(json.as_bytes()).unwrap();
    let z = enc.finish().unwrap();
    let expected = base64::engine::general_purpose::STANDARD.encode(&z);
    assert_eq!(encode_zlib_base64(json).unwrap(), expected);
    assert!(expected.len() % 4 == 0);
    match encode_math_data(json) {
        Ok(s) => assert_eq!(s, expected),
        Err(VectomancyError::InvalidInput(m)) => panic!("{}", m),
        Err(_) => panic!("unexpected error kind"),
    }
}

#[test]
fn polynomial_formatter_omits_zero_terms_and_normalizes_signs() {
    assert_eq!(
        fmt_polynomial(&numbers(&[-0.0, 2.0, 0.0, -1.0]), "(t-3)", false),
        "2*(t-3) - (t-3)^3"
    );
    assert_eq!(fmt_polynomial(&numbers(&[0.0, 0.0]), "t", true), "0");
    assert_eq!(fmt_polynomial(&numbers(&[-0.0]), "t", false), "0");
}

#[test]
fn fourier_formatter_omits_zero_and_identity_operations() {
    let terms = vec![term(0.0, 8.0, 2.0), term(1.0, 1.0, -0.0), term(-2.0, -1.0, 3.0)];
    assert_eq!(fmt_fourier_expression(&terms, "cos", false), "\\cos(t) - 2*\\cos(-t + 3)");
    assert_eq!(fmt_fourier_expression(&terms, "sin", true), "Math.sin(t) - 2*Math.sin(-t + 3)");
}

#[test]
fn prepared_spline_contains_renderable_expressions() {
    let var = spline_variable(&number(2.0));
    assert_eq!(var, "(t-2)");
    let x = numbers(&[10.0, 1.0, 0.0, -0.5]);
    assert_eq!(fmt_polynomial(&x, &var, false), "10 + (t-2) - 0.5*(t-2)^3");
    assert_eq!(fmt_polynomial(&x, &var, true), "10 + (t-2) - 0.5*Math.pow((t-2), 3)");
    assert_eq!(fmt_polynomial(&numbers(&[0.0, 0.0, 0.0, 0.0]), &var, false), "0");
}

#[test]
fn spline_variables() {
    assert_eq!(spline_variable(&number(0.0)), "t");
    assert_eq!(spline_variable(&number(-1.5)), "(t+1.5)");
    assert_eq!(spline_variable(&number(0.25)), "(t-0.25)");
}

#[test]
fn polynomial_terms() {
    assert_eq!(polynomial_term(&number(-1.0), 0, "t", false), "-1");
    assert_eq!(polynomial_term(&number(1.0), 1, "t", false), "t");
    assert_eq!(polynomial_term(&number(3.0), 2, "t", false), "3*t^2");
    assert_eq!(polynomial_term(&number(-1.0), 12, "x", true), "-Math.pow(x, 12)");
    assert_eq!(polynomial_term(&number(4.5), 0, "t", true), "4.5");
    let empty = Number { zero: false, negative: false, unit: false, text: String::new(), magnitude: String::new() };
    assert_eq!(polynomial_term(&empty, 0, "t", false), "1");
}

#[test]
fn fourier_arguments() {
    assert_eq!(fmt_fourier_argument(&number(0.0), &number(-2.0)), "-2");
    assert_eq!(fmt_fourier_argument(&number(0.0), &number(0.0)), "0");
    assert_eq!(fmt_fourier_argument(&number(1.0), &number(0.0)), "t");
    assert_eq!(fmt_fourier_argument(&number(-1.0), &number(0.5)), "-t + 0.5");
    assert_eq!(fmt_fourier_argument(&number(3.0), &number(-0.5)), "3*t - 0.5");
    assert_eq!(fmt_fourier_argument(&number(-3.0), &number(0.0)), "-3*t");
}

#[test]
fn joining_terms() {
    assert_eq!(join_terms(&vec![]), "0");
    assert_eq!(join_terms(&vec!["-a".to_string()]), "-a");
    assert_eq!(
        join_terms(&vec!["a".to_string(), "-b".to_string(), "c".to_string(), String::new()]),
        "a - b + c + "
    );
}

#[test]
fn gradient_ids_and_references() {
    assert_eq!(escape_id(0), "vecto-grad-0");
    assert_eq!(escape_id(42), "vecto-grad-42");
    let mut next = 7usize;
    let a = take_gradient_id(&mut next);
    let b = take_gradient_id(&mut next);
    assert_eq!(a, "vecto-grad-7");
    assert_eq!(b, "vecto-grad-8");
    assert_eq!(next, 9);
    assert_eq!(gradient_url(&escape_id(0)), "url(#vecto-grad-0)");
}

#[test]
fn strokes_and_path_data() {
    assert_eq!(solid_stroke(255, 0, 0), "rgb(255, 0, 0)");
    assert_eq!(black_stroke(), "#000000");
    let pts = vec![("0".to_string(), "0".to_string()), ("10".to_string(), "5".to_string())];
    assert_eq!(polyline_path(&pts), "M 0 0 L 10 5");
    assert_eq!(polyline_path(&vec![]), "");
}

#[test]
fn compact_numbers() {
    assert_eq!(trim_fraction_zeros("1.5000"), "1.5");
    assert_eq!(trim_fraction_zeros("2.0000"), "2");
    assert_eq!(trim_fraction_zeros("0.0000"), "0");
    assert_eq!(trim_fraction_zeros("100"), "100");
    assert_eq!(trim_fraction_zeros("-3.1400"), "-3.14");
    assert_eq!(trim_fraction_zeros(""), "");
}

#[test]
fn scratch_script_for_two_paths() {
    let blocks = scratch_blocks(&vec![2, 1]);
    let ids: Vec<&str> = blocks.iter().map(|b| b.id.as_str()).collect();
    assert_eq!(
        ids,
        vec![
            "start",
            "clear",
            "pu_start",
            "path_0_pt_0_move",
            "path_0_pd",
            "path_0_pt_1_move",
            "path_0_pu",
            "path_1_pt_0_move",
            "path_1_pd",
            "path_1_pu",
        ]
    );
    for i in 0..blocks.len() - 1 {
        assert_eq!(blocks[i].next.as_deref(), Some(blocks[i + 1].id.as_str()));
        assert_eq!(blocks[i + 1].parent.as_deref(), Some(blocks[i].id.as_str()));
    }
    assert_eq!(blocks.last().unwrap().next, None);
    assert_eq!(blocks[0].parent, None);
    assert!(blocks[0].top_level);
    assert!(blocks[1..].iter().all(|b| !b.top_level));
    assert_eq!(blocks[0].opcode, BlockOp::WhenFlagClicked);
    assert_eq!(blocks[1].opcode, BlockOp::PenClear);
    assert_eq!(blocks[2].opcode, BlockOp::PenUp);
    assert_eq!(blocks[3].opcode, BlockOp::GotoXY);
    assert_eq!(blocks[3].point, Some((0, 0)));
    assert_eq!(blocks[5].point, Some((0, 1)));
    assert_eq!(blocks[4].opcode, BlockOp::PenDown);
    assert_eq!(blocks[9].opcode, BlockOp::PenUp);
}

#[test]
fn scratch_script_without_paths() {
    let blocks = scratch_blocks(&vec![]);
    assert_eq!(blocks.len(), 3);
    assert_eq!(blocks[2].next, None);
}

#[test]
fn scratch_script_skips_empty_paths() {
    let blocks = scratch_blocks(&vec![0, 1]);
    let ids: Vec<&str> = blocks.iter().map(|b| b.id.as_str()).collect();
    assert_eq!(ids, vec!["start", "clear", "pu_start", "path_1_pt_0_move", "path_1_pd", "path_1_pu"]);
    // the opening pen-up still points at path 0, which has no blocks
    assert_eq!(blocks[2].next.as_deref(), Some("path_0_pt_0_move"));
    assert_eq!(blocks[3].parent.as_deref(), Some("pu_start"));
}

#[test]
fn different_data_packs_differently() {
    let a = encode_zlib_base64("[1]").unwrap();
    let b = encode_zlib_base64("[2]").unwrap();
    assert_ne!(a, b);
    assert_eq!(unpack(&a), "[1]");
    assert_eq!(unpack(&b), "[2]");
}
