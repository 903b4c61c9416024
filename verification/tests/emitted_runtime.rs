use cairo_json_derive::runtime::{encode_object, parse_string, run_object, RunError};

fn bufs(xs: &[&str]) -> Vec<Vec<u8>> {
    xs.iter().map(|s| s.as_bytes().to_vec()).collect()
}

fn run(fields: &[&str], data: &str) -> (Result<Vec<Vec<u8>>, RunError>, usize) {
    let fields = bufs(fields);
    let data = data.as_bytes().to_vec();
    let mut pos: usize = 0;
    let r = run_object(&fields, &data, &mut pos);
    (r, pos)
}

#[test]
fn point_object_parses() {
    let (r, pos) = run(&["x", "y"], "{\"x\":\"1\",\"y\":\"2\"}");
    assert_eq!(r, Ok(bufs(&["1", "2"])));
    assert_eq!(pos, 17);
}

#[test]
fn key_order_and_whitespace_do_not_matter() {
    let (r, _) = run(&["x", "y"], " { \"y\" : \"2\" , \"x\" : \"1\" } ");
    assert_eq!(r, Ok(bufs(&["1", "2"])));
}

#[test]
fn missing_field_is_rejected() {
    let (r, _) = run(&["x", "y"], "{\"x\":\"1\"}");
    assert_eq!(r, Err(RunError::MissingRequiredField));
}

#[test]
fn extra_field_is_discarded() {
    let (r, _) = run(&["x", "y"], "{\"x\":\"1\",\"y\":\"2\",\"z\":\"9\"}");
    assert_eq!(r, Ok(bufs(&["1", "2"])));
}

#[test]
fn non_object_input_is_rejected() {
    let (r, pos) = run(&["x", "y"], "[1,2]");
    assert_eq!(r, Err(RunError::ExpectedObject));
    assert_eq!(pos, 0);
}

#[test]
fn cursor_advances_exactly_past_leading_whitespace() {
    let (r, pos) = run(&["x"], "   [1,2]");
    assert_eq!(r, Err(RunError::ExpectedObject));
    assert_eq!(pos, 3);
}

#[test]
fn truncated_value_is_a_tokenizer_failure() {
    let (r, _) = run(&["x", "y"], "{\"x\":\"1\",\"y\":");
    assert_eq!(r, Err(RunError::ExpectedString));
}

#[test]
fn unterminated_string_is_a_tokenizer_failure() {
    let (r, _) = run(&["x"], "{\"x");
    assert_eq!(r, Err(RunError::UnterminatedString));
}

#[test]
fn missing_colon_is_rejected() {
    let (r, _) = run(&["x"], "{\"x\" \"1\"}");
    assert_eq!(r, Err(RunError::ExpectedColon));
}

#[test]
fn empty_schema_accepts_empty_object() {
    let (r, pos) = run(&[], "{}");
    assert_eq!(r, Ok(vec![]));
    assert_eq!(pos, 2);
}

#[test]
fn empty_schema_accepts_padded_empty_object() {
    let (r, _) = run(&[], " {  } ");
    assert_eq!(r, Ok(vec![]));
}

#[test]
fn trailing_comma_is_tolerated() {
    let (r, _) = run(&["x"], "{\"x\":\"1\",}");
    assert_eq!(r, Ok(bufs(&["1"])));
}

#[test]
fn unknown_member_must_still_be_a_string() {
    // The catch-all branch parses the unknown member's value as a string, so
    // a non-string value fails rather than being skipped.
    let (r, _) = run(&["x"], "{\"x\":\"1\",\"n\":7}");
    assert_eq!(r, Err(RunError::ExpectedString));
}

#[test]
fn encode_produces_canonical_object() {
    let enc = encode_object(&bufs(&["x", "y"]), &bufs(&["1", "2"]));
    assert_eq!(enc, "{\"x\":\"1\",\"y\":\"2\"}".as_bytes().to_vec());
}

#[test]
fn encode_then_run_round_trips() {
    let fields = bufs(&["name", "city", "zip"]);
    let vals = bufs(&["ada", "paris", "75000"]);
    let enc = encode_object(&fields, &vals);
    let mut pos: usize = 0;
    let r = run_object(&fields, &enc, &mut pos);
    assert_eq!(r, Ok(vals));
    assert_eq!(pos, enc.len());
}

#[test]
fn encode_empty_record_round_trips() {
    let fields: Vec<Vec<u8>> = vec![];
    let vals: Vec<Vec<u8>> = vec![];
    let enc = encode_object(&fields, &vals);
    assert_eq!(enc, "{}".as_bytes().to_vec());
    let mut pos: usize = 0;
    assert_eq!(run_object(&fields, &enc, &mut pos), Ok(vec![]));
}

#[test]
fn parse_string_reads_one_token() {
    let data = "  \"hello\" rest".as_bytes().to_vec();
    let mut pos: usize = 0;
    let r = parse_string(&data, &mut pos);
    assert_eq!(r, Ok("hello".as_bytes().to_vec()));
    assert_eq!(pos, 9);
}

#[test]
fn duplicate_schema_field_can_never_validate() {
    // With a duplicated field name the first dispatch branch wins, the
    // second presence flag can never be set, and validation always fails.
    let (r, _) = run(&["x", "x"], "{\"x\":\"1\",\"x\":\"2\"}");
    assert_eq!(r, Err(RunError::MissingRequiredField));
}
