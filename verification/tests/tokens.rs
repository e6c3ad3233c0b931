use meshwalk::number::numeric;
use meshwalk::token::{parse_sequence, sequence_text, split_fields, ParseError, TokenText};

fn text(s: &str) -> Vec<u8> {
    s.as_bytes().to_vec()
}

fn token(r: &str, long: &str, lat: &str) -> TokenText {
    TokenText { radius: text(r), longitude: text(long), latitude: text(lat) }
}

fn written(r: f32, long: f32, lat: f32) -> TokenText {
    token(&format!("{:.16}", r), &format!("{:.16}", long), &format!("{:.16}", lat))
}

fn number(field: &[u8]) -> f32 {
    String::from_utf8(field.to_vec()).unwrap().parse::<f32>().unwrap()
}

#[test]
fn a_token_is_three_fields() {
    let read = TokenText::parse(&text("1.5000000000000000 -0.2500000000000000 0.0000000000000000"));
    assert_eq!(read, Ok(token("1.5000000000000000", "-0.2500000000000000", "0.0000000000000000")));
}

#[test]
fn a_token_is_written_with_single_spaces() {
    assert_eq!(token("1.5", "-2", "0.0").to_text(), text("1.5 -2 0.0"));
}

#[test]
fn fewer_than_three_fields_is_an_error() {
    assert_eq!(TokenText::parse(&text("1.0 2.0")), Err(ParseError::TooFewFields));
    assert_eq!(TokenText::parse(&text("")), Err(ParseError::TooFewFields));
    assert_eq!(TokenText::parse(&text("   ")), Err(ParseError::TooFewFields));
    assert_eq!(TokenText::parse(&text("x y")), Err(ParseError::TooFewFields));
}

#[test]
fn a_field_that_is_no_number_is_an_error() {
    assert_eq!(TokenText::parse(&text("1.0 two 3.0")), Err(ParseError::NotANumber));
    assert_eq!(TokenText::parse(&text("1.0 2.0 3.x")), Err(ParseError::NotANumber));
    assert_eq!(TokenText::parse(&text("1.0 2.0 .")), Err(ParseError::NotANumber));
    assert_eq!(TokenText::parse(&text("1e 2.0 3.0")), Err(ParseError::NotANumber));
    assert_eq!(TokenText::parse(&text("- 2.0 3.0")), Err(ParseError::NotANumber));
}

#[test]
fn fields_beyond_the_third_are_ignored() {
    assert_eq!(TokenText::parse(&text("1 2 3 junk")), Ok(token("1", "2", "3")));
}

#[test]
fn any_run_of_blanks_separates() {
    assert_eq!(TokenText::parse(&text("  1.0\t2.0 \n 3.0\r\n")), Ok(token("1.0", "2.0", "3.0")));
    assert_eq!(
        split_fields(&text(" ab  c\td ")),
        vec![text("ab"), text("c"), text("d")]
    );
    assert_eq!(split_fields(&text("")), Vec::<Vec<u8>>::new());
}

#[test]
fn numeric_fields() {
    for good in [
        "0", "12", "-7", "+1", "3.25", ".5", "5.", "-.5", "+5.", "-0.0000000000000000", "1e5",
        "1E5", "1e+5", "1e-5", "1.e5", ".5e5", "-2.5E-3", "007", "NaN", "nan", "NAN", "-NaN",
        "+nan", "inf", "-inf", "+inf", "INF", "Inf", "infinity", "-Infinity", "+INFINITY",
    ] {
        assert!(numeric(&text(good)), "{}", good);
    }
    for bad in [
        "", "-", "+", ".", "-.", "1.2.3", "--1", "+-1", "1 ", " 1", "i", "in", "infi", "infinit",
        "infinityy", "na", "nane", "e5", ".e5", "1e", "1e+", "1e-", "1ee5", "1e5.", "1e5e5",
        "1e+-5", "0x10", "1_000", "1,5", "1f", "e", "1.5.e2", "\u{131}nf",
    ] {
        assert!(!numeric(&text(bad)), "{}", bad);
    }
}

#[test]
fn numeric_fields_are_what_the_standard_parser_reads() {
    let pieces = ["", "+", "-", "0", "7", "42", ".", "e", "E", "e+", "e-", "inf", "INF", "nan", "NaN", "infinity", "x", " "];
    for a in pieces {
        for b in pieces {
            for c in pieces {
                let field = format!("{}{}{}", a, b, c);
                assert_eq!(numeric(&text(&field)), field.parse::<f32>().is_ok(), "{:?}", field);
            }
        }
    }
}

#[test]
fn every_shape_of_number_is_read() {
    assert_eq!(TokenText::parse(&text("1e5 2 3")), Ok(token("1e5", "2", "3")));
    assert_eq!(TokenText::parse(&text("+1 .5 5.")), Ok(token("+1", ".5", "5.")));
    assert_eq!(TokenText::parse(&text("nan infinity -INF")), Ok(token("nan", "infinity", "-INF")));
    assert_eq!(parse_sequence(&text("1e5 2 3")), Ok(vec![token("1e5", "2", "3")]));
    assert_eq!(
        parse_sequence(&text("1E-3 +.5 5.e2 Infinity -nan 0")),
        Ok(vec![token("1E-3", "+.5", "5.e2"), token("Infinity", "-nan", "0")])
    );
    for field in ["1e5", "+1", ".5", "5.", "nan", "infinity"] {
        let read = TokenText::parse(&text(&format!("{} 0 0", field))).unwrap();
        let got = number(&read.radius);
        let want = field.parse::<f32>().unwrap();
        assert!(got == want || (got.is_nan() && want.is_nan()));
    }
}

#[test]
fn written_tokens_read_back_within_tolerance() {
    let values = [
        (0.0f32, 0.0f32, 0.0f32),
        (1.0, -1.0, 0.5),
        (-3.25, 2.7182817, -0.0001),
        (1.4142135, -3.1415927, 0.70710677),
        (123456.79, -0.000001, 1e-7),
    ];
    for (r, long, lat) in values {
        let token = written(r, long, lat);
        let read = TokenText::parse(&token.to_text()).unwrap();
        assert_eq!(read, token);
        assert!((number(&read.radius) - r).abs() <= 1e-6 * r.abs().max(1.0));
        assert!((number(&read.longitude) - long).abs() <= 1e-6);
        assert!((number(&read.latitude) - lat).abs() <= 1e-6);
    }
}

#[test]
fn special_values_are_written_and_read() {
    let token = written(f32::INFINITY, f32::NAN, f32::NEG_INFINITY);
    assert_eq!(token.to_text(), text("inf NaN -inf"));
    assert_eq!(TokenText::parse(&token.to_text()), Ok(token));
}

#[test]
fn a_sequence_is_read_three_fields_at_a_time() {
    let read = parse_sequence(&text("1 2 3 4.5 -6 7")).unwrap();
    assert_eq!(read, vec![token("1", "2", "3"), token("4.5", "-6", "7")]);
    assert_eq!(parse_sequence(&text("")), Ok(vec![]));
}

#[test]
fn a_sequence_cut_short_is_an_error() {
    assert_eq!(parse_sequence(&text("1 2 3 4")), Err(ParseError::TooFewFields));
    assert_eq!(parse_sequence(&text("1 2")), Err(ParseError::TooFewFields));
    assert_eq!(parse_sequence(&text("1 2 3 4 x 6")), Err(ParseError::NotANumber));
}

#[test]
fn a_sequence_is_written_and_read_back() {
    let run = vec![written(1.0, 2.0, 3.0), written(-4.0, 0.5, 0.0), written(0.1, 0.2, 0.3)];
    let out = sequence_text(&run);
    assert_eq!(parse_sequence(&out), Ok(run));
    assert_eq!(sequence_text(&vec![token("1", "2", "3"), token("4", "5", "6")]), text("1 2 3 4 5 6"));
    assert_eq!(sequence_text(&vec![]), text(""));
}
