use csv2json::ParseError;
use csv2json::transcode;

fn run(input: &str) -> Result<String, ParseError> {
    let bytes: Vec<u8> = input.as_bytes().to_vec();
    transcode(&bytes).map(|out| String::from_utf8(out).unwrap())
}

#[test]
fn scenario_two_records() {
    let input = "name,age\nAlice,30\nBob,\"2,5\"\n";
    let expected = "[\n  {\"name\": \"Alice\", \"age\": \"30\"},\n  {\"name\": \"Bob\", \"age\": \"2,5\"}\n]";
    assert_eq!(run(input).unwrap(), expected);
}

#[test]
fn empty_input_gives_empty_array() {
    assert_eq!(run("").unwrap(), "[]");
}

#[test]
fn header_only_gives_empty_array() {
    assert_eq!(run("name,age\n").unwrap(), "[]");
}

#[test]
fn header_only_without_trailing_newline() {
    assert_eq!(run("name,age").unwrap(), "[]");
}

#[test]
fn quoted_comma_newline_and_doubled_quote() {
    let input = "a,b\n\"x\ny\",\"He said \"\"hi\"\"\"\n";
    let expected = "[\n  {\"a\": \"x\\ny\", \"b\": \"He said \\\"hi\\\"\"}\n]";
    assert_eq!(run(input).unwrap(), expected);
}

#[test]
fn short_row_drops_missing_columns() {
    let input = "a,b,c\n1,2\n";
    let expected = "[\n  {\"a\": \"1\", \"b\": \"2\"}\n]";
    assert_eq!(run(input).unwrap(), expected);
}

#[test]
fn long_row_drops_extra_fields() {
    let input = "a,b\n1,2,3,4\n";
    let expected = "[\n  {\"a\": \"1\", \"b\": \"2\"}\n]";
    assert_eq!(run(input).unwrap(), expected);
}

#[test]
fn duplicate_header_keeps_last_value_in_place() {
    let input = "a,b,a\n1,2,3\n";
    let expected = "[\n  {\"a\": \"3\", \"b\": \"2\"}\n]";
    assert_eq!(run(input).unwrap(), expected);
}

#[test]
fn crlf_row_ends() {
    let input = "a,b\r\n1,2\r\n3,4\r\n";
    let expected = "[\n  {\"a\": \"1\", \"b\": \"2\"},\n  {\"a\": \"3\", \"b\": \"4\"}\n]";
    assert_eq!(run(input).unwrap(), expected);
}

#[test]
fn blank_lines_produce_no_record() {
    let input = "a\n\n1\n\n2\n";
    let expected = "[\n  {\"a\": \"1\"},\n  {\"a\": \"2\"}\n]";
    assert_eq!(run(input).unwrap(), expected);
}

#[test]
fn empty_trailing_field() {
    let input = "a,b\n1,\n";
    let expected = "[\n  {\"a\": \"1\", \"b\": \"\"}\n]";
    assert_eq!(run(input).unwrap(), expected);
}

#[test]
fn control_bytes_are_escaped() {
    let input = "a\n\"x\u{1}y\tz\"\n";
    let expected = "[\n  {\"a\": \"x\\u0001y\\tz\"}\n]";
    assert_eq!(run(input).unwrap(), expected);
}

#[test]
fn backslash_is_escaped() {
    let input = "a\nc:\\dir\n";
    let expected = "[\n  {\"a\": \"c:\\\\dir\"}\n]";
    assert_eq!(run(input).unwrap(), expected);
}

#[test]
fn unclosed_quote_is_rejected() {
    assert_eq!(run("a\n\"oops").unwrap_err(), ParseError::UnclosedQuote);
}

#[test]
fn byte_after_closing_quote_is_rejected() {
    assert_eq!(run("\"a\"x,b\n").unwrap_err(), ParseError::ByteAfterQuote);
}

#[test]
fn quote_inside_unquoted_field_is_literal() {
    let input = "a\nsay \"hi\"\n";
    let expected = "[\n  {\"a\": \"say \\\"hi\\\"\"}\n]";
    assert_eq!(run(input).unwrap(), expected);
}

#[test]
fn two_runs_give_identical_bytes() {
    let input = "name,age\nAlice,30\nBob,\"2,5\"\n";
    let bytes: Vec<u8> = input.as_bytes().to_vec();
    let first = transcode(&bytes).unwrap();
    let second = transcode(&bytes).unwrap();
    assert_eq!(first, second);
}

#[test]
fn lone_carriage_return_ends_a_row() {
    let input = "a,b\r1,2\r3,4\r";
    let expected = "[\n  {\"a\": \"1\", \"b\": \"2\"},\n  {\"a\": \"3\", \"b\": \"4\"}\n]";
    assert_eq!(run(input).unwrap(), expected);
}

#[test]
fn non_ascii_bytes_pass_through_unchanged() {
    let mut input: Vec<u8> = b"a\n".to_vec();
    input.push(0xC3);
    input.push(0xA9);
    input.push(b'\n');
    let out = transcode(&input).unwrap();
    let expected: Vec<u8> = {
        let mut e = b"[\n  {\"a\": \"".to_vec();
        e.push(0xC3);
        e.push(0xA9);
        e.extend_from_slice(b"\"}\n]");
        e
    };
    assert_eq!(out, expected);
}

#[test]
fn record_count_matches_data_rows() {
    let input = "h1,h2\n1,2\n3,4\n5,6\n7,8\n";
    let out = run(input).unwrap();
    let opened = out.matches('{').count();
    assert_eq!(opened, 4);
}
