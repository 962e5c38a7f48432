use weaveconfig::template_value::generate_env_variable_name;
use weaveconfig::upper_snake_case::to_upper_snake_case;

#[test]
fn test_camel_case() {
    assert_eq!(to_upper_snake_case("someCasing"), "SOME_CASING");
    assert_eq!(to_upper_snake_case("someCasingWithNumbers123"), "SOME_CASING_WITH_NUMBERS_123");
}

#[test]
fn test_snake_case() {
    assert_eq!(to_upper_snake_case("some_casing"), "SOME_CASING");
    assert_eq!(to_upper_snake_case("some_snake_case"), "SOME_SNAKE_CASE");
}

#[test]
fn test_pascal_case() {
    assert_eq!(to_upper_snake_case("SomeCasing"), "SOME_CASING");
    assert_eq!(to_upper_snake_case("PascalCaseExample"), "PASCAL_CASE_EXAMPLE");
}

#[test]
fn test_kebab_case() {
    assert_eq!(to_upper_snake_case("some-casing"), "SOME_CASING");
    assert_eq!(to_upper_snake_case("kebab-case-example"), "KEBAB_CASE_EXAMPLE");
}

#[test]
fn test_mixed_case() {
    assert_eq!(to_upper_snake_case("Some_Casing"), "SOME_CASING");
    assert_eq!(to_upper_snake_case("SOME_casing"), "SOME_CASING");
    assert_eq!(to_upper_snake_case("Some-Casing_WithMixed-Styles"), "SOME_CASING_WITH_MIXED_STYLES");
}

#[test]
fn test_numbers_and_special_characters() {
    assert_eq!(to_upper_snake_case("someCasing123"), "SOME_CASING_123");
    assert_eq!(to_upper_snake_case("some_casing-123"), "SOME_CASING_123");
    assert_eq!(to_upper_snake_case("some-casing!@#123"), "SOME_CASING_123");
}

#[test]
fn test_already_upper_snake_case() {
    assert_eq!(to_upper_snake_case("SOME_CASING"), "SOME_CASING");
    assert_eq!(to_upper_snake_case("ALREADY_UPPER_CASE"), "ALREADY_UPPER_CASE");
}

#[test]
fn test_empty_and_single_character() {
    assert_eq!(to_upper_snake_case(""), "");
    assert_eq!(to_upper_snake_case("a"), "A");
    assert_eq!(to_upper_snake_case("A"), "A");
    assert_eq!(to_upper_snake_case("1"), "1");
}

#[test]
fn test_spaces() {
    assert_eq!(to_upper_snake_case("some casing"), "SOME_CASING");
    assert_eq!(to_upper_snake_case("with multiple spaces"), "WITH_MULTIPLE_SPACES");
    assert_eq!(to_upper_snake_case("  leading and trailing spaces  "), "LEADING_AND_TRAILING_SPACES");
}

#[test]
fn test_non_ascii_characters() {
    assert_eq!(to_upper_snake_case("café"), "CAFU_00E9");
    assert_eq!(to_upper_snake_case("résumé"), "RU_00E9SUMU_00E9");
    assert_eq!(to_upper_snake_case("こんにちは"), "U_3053U_3093U_306BU_3061U_306F");
}

#[test]
fn wide_code_points_use_more_digits() {
    assert_eq!(to_upper_snake_case("a😀"), "AU_1F600");
}

#[test]
fn env_variable_names_fill_every_placeholder() {
    assert_eq!(generate_env_variable_name("apiUrl", "APP_{}"), "APP_API_URL");
    assert_eq!(generate_env_variable_name("x", "{}_{}"), "X_X");
    assert_eq!(generate_env_variable_name("x", "NONE"), "NONE");
    assert_eq!(generate_env_variable_name("x", "{"), "{");
}
