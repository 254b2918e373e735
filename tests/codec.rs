use boundrs::label::{Card, CardSuit, Suit};
use boundrs::yolo::{label_text, parse_label, FormatError, YoloBB};

fn bb(class_num: usize, x: &str, y: &str, w: &str, h: &str) -> YoloBB<Card> {
    YoloBB::new(class_num, x.to_string(), y.to_string(), w.to_string(), h.to_string())
}

#[test]
fn reads_a_line() {
    let b = YoloBB::<Card>::from_str("7 0.25 0.5 0.1 0.2").unwrap();
    assert_eq!(b.class_num, 7);
    assert_eq!(b.x, "0.25");
    assert_eq!(b.y, "0.5");
    assert_eq!(b.w, "0.1");
    assert_eq!(b.h, "0.2");
    assert_eq!(b.class(), Card::V7);
}

#[test]
fn reads_a_line_with_extra_fields_and_plus_sign() {
    let b = YoloBB::<Card>::from_str("+12 1 2 3 4 5").unwrap();
    assert_eq!(b.class_num, 12);
    assert_eq!(b.h, "4");
}

#[test]
fn out_of_range_fractions_pass_through() {
    let b = YoloBB::<Card>::from_str("3 1.2 -0.1 0.5 0.5").unwrap();
    assert_eq!(b.x, "1.2");
    assert_eq!(b.y, "-0.1");
}

#[test]
fn too_few_fields_is_an_error() {
    assert_eq!(YoloBB::<Card>::from_str("0 0.5 0.5 1").unwrap_err(), FormatError::MissingFields);
    assert_eq!(YoloBB::<Card>::from_str("").unwrap_err(), FormatError::MissingFields);
}

#[test]
fn bad_class_index_is_an_error() {
    assert_eq!(YoloBB::<Card>::from_str("x 0.5 0.5 1 1").unwrap_err(), FormatError::BadClassIndex);
    assert_eq!(YoloBB::<Card>::from_str("-1 0.5 0.5 1 1").unwrap_err(), FormatError::BadClassIndex);
    assert_eq!(YoloBB::<Card>::from_str("+ 0.5 0.5 1 1").unwrap_err(), FormatError::BadClassIndex);
    assert_eq!(
        YoloBB::<Card>::from_str("99999999999999999999999 0.5 0.5 1 1").unwrap_err(),
        FormatError::BadClassIndex
    );
}

#[test]
fn writes_a_line() {
    assert_eq!(bb(0, "0.5", "0.5", "1", "1").as_string(), "0 0.5 0.5 1 1");
    assert_eq!(bb(12, "0.1", "0.2", "0.3", "0.4").as_string(), "12 0.1 0.2 0.3 0.4");
    assert_eq!(bb(1234567, "0", "0", "0", "0").as_string(), "1234567 0 0 0 0");
}

#[test]
fn full_frame_box_text() {
    let label = vec![bb(0, "0.5", "0.5", "1", "1")];
    assert_eq!(label_text(&label), "0 0.5 0.5 1 1\n");
}

#[test]
fn empty_label_text() {
    let label: Vec<YoloBB<Card>> = vec![];
    assert_eq!(label_text(&label), "");
    assert!(parse_label::<Card>("").unwrap().is_empty());
}

#[test]
fn text_round_trip() {
    let label = vec![
        bb(0, "0.5", "0.5", "1", "1"),
        bb(11, "0.123456", "0.9", "0.01", "0.02"),
        bb(4, "1e-5", "0.3333333", "0.25", "0.75"),
    ];
    let text = label_text(&label);
    let back = parse_label::<Card>(&text).unwrap();
    assert_eq!(back.len(), label.len());
    for (a, b) in back.iter().zip(label.iter()) {
        assert_eq!(a.class_num, b.class_num);
        assert_eq!(a.x, b.x);
        assert_eq!(a.y, b.y);
        assert_eq!(a.w, b.w);
        assert_eq!(a.h, b.h);
    }
}

#[test]
fn reads_crlf_and_missing_final_newline() {
    let back = parse_label::<Card>("1 0.1 0.2 0.3 0.4\r\n2 0.5 0.6 0.7 0.8").unwrap();
    assert_eq!(back.len(), 2);
    assert_eq!(back[0].h, "0.4");
    assert_eq!(back[1].class_num, 2);
    assert_eq!(back[1].h, "0.8");
}

#[test]
fn a_bad_line_fails_the_whole_file() {
    assert_eq!(
        parse_label::<Card>("1 0.1 0.2 0.3 0.4\n\n2 0.5 0.6 0.7 0.8\n").unwrap_err(),
        FormatError::MissingFields
    );
    assert_eq!(
        parse_label::<Card>("1 0.1 0.2 0.3 0.4\nq 0.5 0.6 0.7 0.8\n").unwrap_err(),
        FormatError::BadClassIndex
    );
}

#[test]
fn record_of_a_class() {
    let b = YoloBB::with_class(
        CardSuit(Card::V7, Suit::Hearts),
        "0.5".to_string(),
        "0.5".to_string(),
        "0.2".to_string(),
        "0.2".to_string(),
    );
    assert_eq!(b.class_num, 7);
    assert_eq!(b.class(), CardSuit(Card::V7, Suit::Hearts));
}

#[test]
fn non_numeric_coordinate_is_an_error() {
    assert_eq!(YoloBB::<Card>::from_str("0 0.5 abc 1 1").unwrap_err(), FormatError::BadCoordinate);
    assert_eq!(YoloBB::<Card>::from_str("0 0.5  0.5 1").unwrap_err(), FormatError::BadCoordinate);
    assert_eq!(YoloBB::<Card>::from_str("0 . 0.5 1 1").unwrap_err(), FormatError::BadCoordinate);
    assert_eq!(YoloBB::<Card>::from_str("0 0.5 0.5 1e 1").unwrap_err(), FormatError::BadCoordinate);
    assert_eq!(YoloBB::<Card>::from_str("0 0.5 0.5 1 1.2.3").unwrap_err(), FormatError::BadCoordinate);
    assert_eq!(
        parse_label::<Card>("1 0.1 0.2 0.3 0.4\n2 0.5 x 0.7 0.8\n").unwrap_err(),
        FormatError::BadCoordinate
    );
}

#[test]
fn float_literals_accepted_as_coordinates() {
    let b = YoloBB::<Card>::from_str("0 .5 5. -1E+3 inf").unwrap();
    assert_eq!(b.x, ".5");
    assert_eq!(b.h, "inf");
    assert!(YoloBB::<Card>::from_str("0 NaN +Infinity 2e-7 -0").is_ok());
}

#[test]
fn float_literal_grammar() {
    for ok in [
        "0", "1.5", ".5", "5.", "-0.25", "+3", "1e5", "1E-5", "2.5e+10", "inf", "-INF", "Infinity",
        "nan", "NaN",
    ] {
        assert!(boundrs::text::float_literal(ok), "{}", ok);
        assert!(ok.parse::<f32>().is_ok(), "{}", ok);
    }
    for bad in [
        "", ".", "+", "e5", "1e", "1e+", "1.2.3", "abc", "in", "nanx", " 1", "1 ", "0x10", "--1",
    ] {
        assert!(!boundrs::text::float_literal(bad), "{}", bad);
        assert!(bad.parse::<f32>().is_err(), "{}", bad);
    }
}
