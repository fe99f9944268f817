use csv2json::has_csv_extension;
use csv2json::json_output_name;

fn is_csv(name: &str) -> bool {
    has_csv_extension(&name.as_bytes().to_vec())
}

fn json_name(name: &str) -> String {
    String::from_utf8(json_output_name(&name.as_bytes().to_vec())).unwrap()
}

#[test]
fn csv_extension_is_selected() {
    assert!(is_csv("a.csv"));
    assert!(is_csv("report.2020.csv"));
    assert!(is_csv("x y.csv"));
}

#[test]
fn other_extensions_are_excluded() {
    assert!(!is_csv("a.txt"));
    assert!(!is_csv("a.json"));
    assert!(!is_csv("acsv"));
    assert!(!is_csv("csv"));
    assert!(!is_csv("a.csv.bak"));
}

#[test]
fn extension_match_is_case_sensitive() {
    assert!(!is_csv("a.CSV"));
    assert!(!is_csv("a.Csv"));
}

#[test]
fn leading_dot_alone_is_no_extension() {
    assert!(!is_csv(".csv"));
    assert!(is_csv(".hidden.csv"));
}

#[test]
fn output_name_replaces_extension() {
    assert_eq!(json_name("a.csv"), "a.json");
    assert_eq!(json_name("report.2020.csv"), "report.2020.json");
}

#[test]
fn output_name_without_dot_appends_extension() {
    assert_eq!(json_name("noext"), "noext.json");
}

#[test]
fn output_name_keeps_leading_dot_name_whole() {
    assert_eq!(json_name(".csv"), ".csv.json");
}
