use rusty_express::pattern::Pattern;
use rusty_express::router::RouteMap;
use rusty_express::trie::{Field, RouteError};

#[test]
fn params_parser_test_one() {
    let regex = Pattern::parse("a=[/]bdc").unwrap();
    let base = vec![
        Field::new(String::from("root"), false, None),
        Field::new(String::from("api"), false, None),
        Field::new(String::from("Tes中t"), true, Some(regex)),
        Field::new(String::from("this."), false, None),
        Field::new(String::from("check"), true, None),
    ];

    let test = RouteMap::params_parser("/root/api/:Tes中t(a=[/]bdc)/this./:check/").unwrap();
    assert_eq!(test.len(), base.len());

    for (base_field, test_field) in base.iter().zip(&test) {
        assert_eq!(base_field, test_field);
    }
}

#[test]
fn params_parser_rejects_duplicate_names() {
    assert_eq!(
        RouteMap::params_parser("/a/:id/b/:id").unwrap_err(),
        RouteError::DuplicateParam
    );
    assert_eq!(
        RouteMap::params_parser("/a/:id([0-9]+)/:id").unwrap_err(),
        RouteError::DuplicateParam
    );
}

#[test]
fn params_parser_errors() {
    assert_eq!(RouteMap::params_parser("/a//:b").unwrap_err(), RouteError::EmptySegment);
    assert_eq!(RouteMap::params_parser("/a/:b-c").unwrap_err(), RouteError::InvalidParamName);
    assert_eq!(RouteMap::params_parser("/:id(x)y").unwrap_err(), RouteError::TextAfterValidator);
    assert_eq!(RouteMap::params_parser("/a/:").unwrap_err(), RouteError::EmptyParamName);
    assert_eq!(RouteMap::params_parser("/:(x)").unwrap_err(), RouteError::ValidatorWithoutName);
    assert_eq!(RouteMap::params_parser("/:a()").unwrap_err(), RouteError::EmptyValidator);
    assert_eq!(RouteMap::params_parser("/:a(x").unwrap_err(), RouteError::UnterminatedValidator);
}

#[test]
fn params_parser_rejects_bad_validator() {
    assert_eq!(RouteMap::params_parser("/:a(x[)").unwrap_err(), RouteError::InvalidValidator);
    assert_eq!(RouteMap::params_parser("/:n/:n([)").unwrap_err(), RouteError::InvalidValidator);
}

#[test]
fn params_parser_rejects_misplaced_markers() {
    assert_eq!(RouteMap::params_parser("/a:b/:c").unwrap_err(), RouteError::MisplacedColon);
    assert_eq!(RouteMap::params_parser("/:a:b").unwrap_err(), RouteError::MisplacedColon);
    assert_eq!(RouteMap::params_parser("/a(b)/:c").unwrap_err(), RouteError::MisplacedValidator);
    assert_eq!(RouteMap::params_parser("/(b)/:c").unwrap_err(), RouteError::MisplacedValidator);
}

#[test]
fn params_parser_literal_segments() {
    let fields = RouteMap::params_parser("/x/y.z/:id/").unwrap();
    assert_eq!(fields.len(), 3);
    assert_eq!(fields[0].name(), "x");
    assert_eq!(fields[1].name(), "y.z");
    assert!(!fields[1].is_param());
    assert_eq!(fields[2].name(), "id");
    assert!(fields[2].is_param());
}

#[test]
fn pattern_parse_reports_bad_syntax() {
    assert!(Pattern::parse("(").is_none());
    assert_eq!(Pattern::parse("[0-9]+").unwrap().as_str(), "[0-9]+");
}
