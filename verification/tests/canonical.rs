use result_pages::canonical::{
    canonical_events, canonical_schools, find_unequal, join_lines, write_csv, CsvError, Team,
};
use result_pages::order::{sort, sort_distinct, str_is_less};
use result_pages::pages::result_page_path;

fn strings(items: &[&str]) -> Vec<String> {
    items.iter().map(|s| s.to_string()).collect()
}

fn team(school: &str, city: Option<&str>, state: &str) -> Team {
    Team { school: school.to_string(), city: city.map(|c| c.to_string()), state: state.to_string() }
}

#[test]
fn strings_are_ordered_as_the_standard_library_orders_them() {
    let samples = ["", "a", "A", "ab", "abc", "b", "é", "z", "Anatomy", "anatomy", "日本", "a\u{10000}", "a\u{ffff}"];
    for a in samples {
        for b in samples {
            assert_eq!(str_is_less(a, b), a < b, "{:?} and {:?}", a, b);
        }
    }
}

fn rows(items: &[&[&str]]) -> Vec<Vec<String>> {
    items.iter().map(|row| strings(row)).collect()
}

#[test]
fn sort_keeps_duplicates() {
    assert_eq!(
        sort(rows(&[&["b"], &["a", "z"], &["c"], &["a"], &["a", "z"], &[]])),
        rows(&[&[], &["a"], &["a", "z"], &["a", "z"], &["b"], &["c"]])
    );
    assert_eq!(sort(Vec::<Vec<String>>::new()), Vec::<Vec<String>>::new());
}

#[test]
fn sort_distinct_drops_duplicates() {
    assert_eq!(
        sort_distinct(rows(&[&["b"], &["a", "z"], &["c"], &["a"], &["a", "z"], &["b"]])),
        rows(&[&["a"], &["a", "z"], &["b"], &["c"]])
    );
}

#[test]
fn events_are_listed_once_and_in_order() {
    let names = strings(&["Forensics", "Anatomy", "Boomilever", "Anatomy", "Astronomy", "Forensics"]);
    assert_eq!(
        canonical_events(&names),
        vec![strings(&["Anatomy"]), strings(&["Astronomy"]), strings(&["Boomilever"]), strings(&["Forensics"])]
    );
}

#[test]
fn no_events() {
    assert_eq!(canonical_events(&Vec::new()), Vec::<Vec<String>>::new());
}

#[test]
fn schools_are_listed_once_and_in_order() {
    let teams = vec![
        team("Troy H.S.", Some("Fullerton"), "CA"),
        team("Acton-Boxborough", None, "MA"),
        team("Troy H.S.", Some("Fullerton"), "CA"),
        team("Troy H.S.", None, "MI"),
        team("Troy H.S.", Some("Auburn"), "CA"),
    ];
    assert_eq!(
        canonical_schools(&teams),
        vec![
            strings(&["Acton-Boxborough", "", "MA"]),
            strings(&["Troy H.S.", "", "MI"]),
            strings(&["Troy H.S.", "Auburn", "CA"]),
            strings(&["Troy H.S.", "Fullerton", "CA"]),
        ]
    );
}

#[test]
fn table_is_written_as_csv() {
    let table = vec![strings(&["Acton-Boxborough", "", "MA"]), strings(&["Troy H.S.", "Fullerton", "CA"])];
    assert_eq!(
        write_csv(&table),
        Ok(b"Acton-Boxborough,,MA\nTroy H.S.,Fullerton,CA\n".to_vec())
    );
}

#[test]
fn csv_fields_are_quoted_where_needed() {
    let table = vec![strings(&["Write It, Do It"]), strings(&["a \"b\""]), strings(&[""])];
    assert_eq!(write_csv(&table), Ok(b"\"Write It, Do It\"\n\"a \"\"b\"\"\"\n\"\"\n".to_vec()));
}

#[test]
fn empty_table_is_empty_csv() {
    assert_eq!(write_csv(&Vec::new()), Ok(Vec::new()));
}

#[test]
fn csv_records_of_unequal_length_are_an_error() {
    let table = vec![strings(&["a", "b"]), strings(&["c", "d"]), strings(&["e"]), strings(&["f"])];
    assert_eq!(write_csv(&table), Err(CsvError::UnequalLengths(2)));
}

#[test]
fn canonical_events_as_csv() {
    let names = strings(&["Forensics", "Anatomy", "Anatomy"]);
    assert_eq!(write_csv(&canonical_events(&names)), Ok(b"Anatomy\nForensics\n".to_vec()));
}

#[test]
fn page_of_a_result_file() {
    assert_eq!(
        result_page_path("2021-04-01_regional_x_b.yaml"),
        "public/results/2021-04-01_regional_x_b.html"
    );
    assert_eq!(result_page_path("2019-03-09_mit_c"), "public/results/2019-03-09_mit_c.html");
    assert_eq!(result_page_path("a.b.yaml"), "public/results/a.b.html");
}

#[test]
fn canonical_tables_do_not_depend_on_the_order_of_the_names() {
    let one = strings(&["Forensics", "Anatomy", "Boomilever", "Anatomy"]);
    let other = strings(&["Boomilever", "Forensics", "Forensics", "Anatomy"]);
    assert_eq!(canonical_events(&one), canonical_events(&other));
    let teams = vec![team("B", None, "MI"), team("A", Some("X"), "CA"), team("B", None, "MI")];
    let turned = vec![team("A", Some("X"), "CA"), team("B", None, "MI")];
    assert_eq!(canonical_schools(&teams), canonical_schools(&turned));
}

#[test]
fn first_record_of_another_length() {
    assert_eq!(find_unequal(&Vec::new()), None);
    assert_eq!(find_unequal(&rows(&[&["a"], &["b"]])), None);
    assert_eq!(find_unequal(&rows(&[&["a"], &["b", "c"], &[]])), Some(1));
    assert_eq!(find_unequal(&rows(&[&[], &[], &["a"]])), Some(2));
}

#[test]
fn lines_are_joined() {
    assert_eq!(join_lines(&Vec::new()), Vec::<u8>::new());
    assert_eq!(join_lines(&vec![b"a\n".to_vec(), Vec::new(), b"bc\n".to_vec()]), b"a\nbc\n".to_vec());
}
