use arrow_convert::case::{capitalize, split_into_words, RenameRule};

#[test]
fn test_split_snake_case() {
    assert_eq!(split_into_words("my_field_name"), vec!["my", "field", "name"]);
}

#[test]
fn test_split_camel_case() {
    assert_eq!(split_into_words("myFieldName"), vec!["my", "Field", "Name"]);
}

#[test]
fn test_split_pascal_case() {
    assert_eq!(split_into_words("MyFieldName"), vec!["My", "Field", "Name"]);
}

#[test]
fn test_split_acronym() {
    assert_eq!(split_into_words("XMLParser"), vec!["XML", "Parser"]);
    assert_eq!(split_into_words("parseXML"), vec!["parse", "XML"]);
}

#[test]
fn test_apply_camel_case() {
    assert_eq!(RenameRule::CamelCase.apply("my_field_name"), "myFieldName");
    assert_eq!(RenameRule::CamelCase.apply("MyFieldName"), "myFieldName");
}

#[test]
fn test_apply_pascal_case() {
    assert_eq!(RenameRule::PascalCase.apply("my_field_name"), "MyFieldName");
}

#[test]
fn test_apply_snake_case() {
    assert_eq!(RenameRule::SnakeCase.apply("myFieldName"), "my_field_name");
    assert_eq!(RenameRule::SnakeCase.apply("MyFieldName"), "my_field_name");
}

#[test]
fn test_apply_screaming_snake_case() {
    assert_eq!(RenameRule::ScreamingSnakeCase.apply("myFieldName"), "MY_FIELD_NAME");
}

#[test]
fn test_apply_kebab_case() {
    assert_eq!(RenameRule::KebabCase.apply("my_field_name"), "my-field-name");
}

#[test]
fn test_apply_lowercase() {
    assert_eq!(RenameRule::LowerCase.apply("MyFieldName"), "myfieldname");
}

#[test]
fn test_apply_uppercase() {
    assert_eq!(RenameRule::UpperCase.apply("my_field_name"), "MYFIELDNAME");
}

#[test]
fn apply_screaming_kebab_case() {
    assert_eq!(RenameRule::ScreamingKebabCase.apply("myFieldName"), "MY-FIELD-NAME");
}

#[test]
fn from_str_names_every_rule() {
    assert_eq!(RenameRule::from_str("lowercase"), Some(RenameRule::LowerCase));
    assert_eq!(RenameRule::from_str("UPPERCASE"), Some(RenameRule::UpperCase));
    assert_eq!(RenameRule::from_str("camelCase"), Some(RenameRule::CamelCase));
    assert_eq!(RenameRule::from_str("PascalCase"), Some(RenameRule::PascalCase));
    assert_eq!(RenameRule::from_str("snake_case"), Some(RenameRule::SnakeCase));
    assert_eq!(
        RenameRule::from_str("SCREAMING_SNAKE_CASE"),
        Some(RenameRule::ScreamingSnakeCase)
    );
    assert_eq!(RenameRule::from_str("kebab-case"), Some(RenameRule::KebabCase));
    assert_eq!(
        RenameRule::from_str("SCREAMING-KEBAB-CASE"),
        Some(RenameRule::ScreamingKebabCase)
    );
    assert_eq!(RenameRule::from_str("Snake_Case"), None);
    assert_eq!(RenameRule::from_str(""), None);
}

#[test]
fn split_drops_empty_words_and_mixed_separators() {
    assert_eq!(split_into_words("__a--b_"), vec!["a", "b"]);
    assert!(split_into_words("").is_empty());
    assert!(split_into_words("_-_").is_empty());
}

#[test]
fn split_keeps_digits_in_words() {
    assert_eq!(split_into_words("field2Name"), vec!["field2", "Name"]);
    assert_eq!(split_into_words("HTTPServer2"), vec!["HTTP", "Server2"]);
}

#[test]
fn capitalize_lowers_the_rest() {
    assert_eq!(capitalize("hELLO"), "Hello");
    assert_eq!(capitalize(""), "");
    assert_eq!(capitalize("x"), "X");
}

#[test]
fn case_mapping_is_unicode_aware() {
    assert_eq!(RenameRule::UpperCase.apply("straße"), "STRASSE");
    assert_eq!(RenameRule::LowerCase.apply("ÀÉ"), "àé");
    assert_eq!(capitalize("élan"), "Élan");
}

#[test]
fn snake_case_is_idempotent_on_examples() {
    let once = RenameRule::SnakeCase.apply("XMLHttpRequest");
    assert_eq!(once, "xml_http_request");
    assert_eq!(RenameRule::SnakeCase.apply(&once), once);
    let kebab = RenameRule::KebabCase.apply("myField2Name");
    assert_eq!(RenameRule::KebabCase.apply(&kebab), kebab);
}

#[test]
fn camel_case_is_not_idempotent_on_one_letter_words() {
    let once = RenameRule::CamelCase.apply("a_b_c");
    assert_eq!(once, "aBC");
    assert_eq!(RenameRule::CamelCase.apply(&once), "aBc");
}

#[test]
fn screaming_snake_case_is_idempotent_on_letters() {
    let once = RenameRule::ScreamingSnakeCase.apply("parseXMLDocument");
    assert_eq!(once, "PARSE_XML_DOCUMENT");
    assert_eq!(RenameRule::ScreamingSnakeCase.apply(&once), once);
    let kebab = RenameRule::ScreamingKebabCase.apply("my_fieldName");
    assert_eq!(kebab, "MY-FIELD-NAME");
    assert_eq!(RenameRule::ScreamingKebabCase.apply(&kebab), kebab);
}

#[test]
fn screaming_snake_case_splits_again_after_digits() {
    let once = RenameRule::ScreamingSnakeCase.apply("http2x");
    assert_eq!(once, "HTTP2X");
    assert_eq!(RenameRule::ScreamingSnakeCase.apply(&once), "HTTP2_X");
}

#[test]
fn lowercase_and_uppercase_are_idempotent_on_examples() {
    let lower = RenameRule::LowerCase.apply("My_Field-Name");
    assert_eq!(lower, "myfieldname");
    assert_eq!(RenameRule::LowerCase.apply(&lower), lower);
    let upper = RenameRule::UpperCase.apply("HTTP2x_y");
    assert_eq!(upper, "HTTP2XY");
    assert_eq!(RenameRule::UpperCase.apply(&upper), upper);
}

#[test]
fn camel_and_pascal_are_idempotent_on_two_letter_words() {
    let camel = RenameRule::CamelCase.apply("user_name_xml");
    assert_eq!(camel, "userNameXml");
    assert_eq!(RenameRule::CamelCase.apply(&camel), camel);
    let pascal = RenameRule::PascalCase.apply("XMLHttpRequest");
    assert_eq!(pascal, "XmlHttpRequest");
    assert_eq!(RenameRule::PascalCase.apply(&pascal), pascal);
    let pascal = RenameRule::PascalCase.apply("a_b");
    assert_eq!(pascal, "AB");
    assert_eq!(RenameRule::PascalCase.apply(&pascal), "Ab");
}

#[test]
fn single_letter_words_apart_keep_pascal_idempotent() {
    let pascal = RenameRule::PascalCase.apply("a_bc_d");
    assert_eq!(pascal, "ABcD");
    assert_eq!(RenameRule::PascalCase.apply(&pascal), pascal);
    let camel = RenameRule::CamelCase.apply("x_y_zw");
    assert_eq!(camel, "xYZw");
    assert_eq!(RenameRule::CamelCase.apply(&camel), camel);
}
