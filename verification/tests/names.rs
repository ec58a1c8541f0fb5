use result_pages::names::{
    logo_format, parse_logo_name, parse_result_file_name, strip_extension, LogoFormat,
    MalformedFileName,
};
use result_pages::text::{find_first, find_last, read_u32};

#[test]
fn logo_name_with_year_and_division() {
    let name = parse_logo_name("2019_state_tournament_a").unwrap();
    assert_eq!(name.minimum_year, 2019);
    assert_eq!(name.tournament_name, "state_tournament");
    assert_eq!(name.division, Some("a".to_string()));
}

#[test]
fn logo_name_without_year_and_division() {
    let name = parse_logo_name("state_tournament").unwrap();
    assert_eq!(name.minimum_year, 0);
    assert_eq!(name.tournament_name, "state_tournament");
    assert_eq!(name.division, None);
}

#[test]
fn logo_name_with_division_only() {
    let name = parse_logo_name("regional_x_b").unwrap();
    assert_eq!(name.minimum_year, 0);
    assert_eq!(name.tournament_name, "regional_x");
    assert_eq!(name.division, Some("b".to_string()));
}

#[test]
fn logo_name_with_year_only() {
    let name = parse_logo_name("2020_regional_open").unwrap();
    assert_eq!(name.minimum_year, 2020);
    assert_eq!(name.tournament_name, "regional_open");
    assert_eq!(name.division, None);
}

#[test]
fn logo_name_whose_last_segment_is_one_letter() {
    let name = parse_logo_name("2020_regional_x").unwrap();
    assert_eq!(name.minimum_year, 2020);
    assert_eq!(name.tournament_name, "regional");
    assert_eq!(name.division, Some("x".to_string()));
}

#[test]
fn logo_name_year_zero_is_part_of_the_name() {
    let name = parse_logo_name("0_open").unwrap();
    assert_eq!(name.minimum_year, 0);
    assert_eq!(name.tournament_name, "0_open");
    assert_eq!(name.division, None);
}

#[test]
fn logo_name_that_is_only_a_year() {
    let name = parse_logo_name("2020").unwrap();
    assert_eq!(name.minimum_year, 2020);
    assert_eq!(name.tournament_name, "");
    assert_eq!(name.division, None);
}

#[test]
fn logo_name_that_is_one_digit_is_malformed() {
    assert_eq!(parse_logo_name("5").err(), Some(MalformedFileName::MissingName));
}

#[test]
fn logo_name_of_one_letter_is_a_division() {
    let name = parse_logo_name("a").unwrap();
    assert_eq!(name.minimum_year, 0);
    assert_eq!(name.tournament_name, "");
    assert_eq!(name.division, Some("a".to_string()));
}

#[test]
fn logo_name_year_and_division_only() {
    let name = parse_logo_name("2019_a").unwrap();
    assert_eq!(name.minimum_year, 2019);
    assert_eq!(name.tournament_name, "");
    assert_eq!(name.division, Some("a".to_string()));
}

#[test]
fn logo_name_empty() {
    let name = parse_logo_name("").unwrap();
    assert_eq!(name.minimum_year, 0);
    assert_eq!(name.tournament_name, "");
    assert_eq!(name.division, None);
}

#[test]
fn logo_name_year_too_large_is_part_of_the_name() {
    let name = parse_logo_name("4294967296_mit").unwrap();
    assert_eq!(name.minimum_year, 0);
    assert_eq!(name.tournament_name, "4294967296_mit");
}

#[test]
fn result_file_name_with_division() {
    let id = parse_result_file_name("2021-04-01_regional_x_b.yaml").unwrap();
    assert_eq!(id.year, 2021);
    assert_eq!(id.division, "b");
    assert_eq!(id.tournament_name, "regional_x");
}

#[test]
fn result_file_name_without_extension() {
    let id = parse_result_file_name("2019-03-09_mit_invitational_c").unwrap();
    assert_eq!(id.year, 2019);
    assert_eq!(id.division, "c");
    assert_eq!(id.tournament_name, "mit_invitational");
}

#[test]
fn result_file_name_with_empty_division() {
    let id = parse_result_file_name("2019-03-09_mit_.yaml").unwrap();
    assert_eq!(id.division, "");
    assert_eq!(id.tournament_name, "mit");
}

#[test]
fn result_file_name_without_year() {
    assert_eq!(
        parse_result_file_name("regional_x_b.yaml").err(),
        Some(MalformedFileName::MissingYear)
    );
    assert_eq!(
        parse_result_file_name("-04-01_regional_x_b.yaml").err(),
        Some(MalformedFileName::MissingYear)
    );
}

#[test]
fn result_file_name_without_underscore() {
    assert_eq!(
        parse_result_file_name("2021-04-01.yaml").err(),
        Some(MalformedFileName::MissingSuffix)
    );
}

#[test]
fn result_file_name_with_one_underscore() {
    assert_eq!(
        parse_result_file_name("2021-04-01_regional.yaml").err(),
        Some(MalformedFileName::MissingSuffix)
    );
}

#[test]
fn extension_is_stripped() {
    assert_eq!(strip_extension("2019_state_tournament_a.png"), "2019_state_tournament_a");
    assert_eq!(strip_extension("logo.tar.gz"), "logo.tar");
    assert_eq!(strip_extension("plain"), "plain");
    assert_eq!(strip_extension(".hidden"), ".hidden");
}

#[test]
fn separators_are_found() {
    assert_eq!(find_first("a_b_c", '_'), 1);
    assert_eq!(find_first("abc", '_'), 3);
    assert_eq!(find_last("a_b_c", '_'), Some(3));
    assert_eq!(find_last("abc", '_'), None);
}

#[test]
fn numbers_are_read_as_the_standard_library_reads_them() {
    for token in ["0", "7", "2019", "+2019", "002019", "4294967295", "4294967296", "", "+", "-1", "20a", " 1", "１"] {
        assert_eq!(read_u32(token), token.parse::<u32>().ok(), "token {:?}", token);
    }
}

#[test]
fn format_of_a_logo() {
    assert_eq!(logo_format("2019_state_tournament_a.svg"), Some(LogoFormat::Vector));
    assert_eq!(logo_format("2019_state_tournament_a.png"), Some(LogoFormat::Raster));
    assert_eq!(logo_format("logo.svg.jpg"), Some(LogoFormat::Raster));
    assert_eq!(logo_format("logo.SVG"), Some(LogoFormat::Raster));
    assert_eq!(logo_format("logo."), Some(LogoFormat::Raster));
    assert_eq!(logo_format("logo"), None);
    assert_eq!(logo_format(".svg"), None);
}
