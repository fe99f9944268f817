//! Holds the library against the crates the output is meant to interoperate
//! with: the produced text must be JSON that serde_json accepts with the
//! right shape, and the parser must agree with the csv crate on common
//! well-formed input.

use csv2json::transcode;

fn run(input: &str) -> String {
    let bytes: Vec<u8> = input.as_bytes().to_vec();
    String::from_utf8(transcode(&bytes).unwrap()).unwrap()
}

#[test]
fn output_is_valid_json_with_expected_values() {
    let out = run("name,age\nAlice,30\nBob,\"2,5\"\n");
    let value: serde_json::Value = serde_json::from_str(&out).unwrap();
    let rows = value.as_array().unwrap();
    assert_eq!(rows.len(), 2);
    assert_eq!(rows[0].get("name").unwrap().as_str().unwrap(), "Alice");
    assert_eq!(rows[0].get("age").unwrap().as_str().unwrap(), "30");
    assert_eq!(rows[1].get("name").unwrap().as_str().unwrap(), "Bob");
    assert_eq!(rows[1].get("age").unwrap().as_str().unwrap(), "2,5");
}

#[test]
fn escaped_values_survive_a_json_round_trip() {
    let out = run("a\n\"line one\nline two\ttabbed \"\"quoted\"\"\"\n");
    let value: serde_json::Value = serde_json::from_str(&out).unwrap();
    let rows = value.as_array().unwrap();
    assert_eq!(
        rows[0].get("a").unwrap().as_str().unwrap(),
        "line one\nline two\ttabbed \"quoted\"",
    );
}

#[test]
fn values_are_strings_even_when_numeric() {
    let out = run("n\n42\n");
    let value: serde_json::Value = serde_json::from_str(&out).unwrap();
    assert!(value.as_array().unwrap()[0].get("n").unwrap().is_string());
}

#[test]
fn parser_agrees_with_the_csv_crate() {
    let input = "name,age\nAlice,30\nBob,\"2,5\"\n";
    let ours = csv2json::csv_parse::parse_csv(&input.as_bytes().to_vec()).unwrap();

    let mut reader = csv::ReaderBuilder::new().from_reader(input.as_bytes());
    let headers: Vec<String> = reader.headers().unwrap().iter().map(|s| s.to_string()).collect();
    let our_header: Vec<String> = ours[0]
        .iter()
        .map(|f| String::from_utf8(f.clone()).unwrap())
        .collect();
    assert_eq!(our_header, headers);

    let mut row_index = 1;
    for record in reader.records() {
        let record = record.unwrap();
        let theirs: Vec<String> = record.iter().map(|s| s.to_string()).collect();
        let our_row: Vec<String> = ours[row_index]
            .iter()
            .map(|f| String::from_utf8(f.clone()).unwrap())
            .collect();
        assert_eq!(our_row, theirs);
        row_index += 1;
    }
    assert_eq!(row_index, ours.len());
}
