use weaveconfig::template_file::{template_file, value_type, TemplateError, VariableError};
use weaveconfig::value::{Document, JsonValue};

fn s(x: &str) -> String {
    x.to_string()
}

fn map(vars: Vec<(&str, JsonValue)>) -> Document {
    vars.into_iter().map(|(k, v)| (s(k), v)).collect()
}

fn obj(entries: Vec<(&str, JsonValue)>) -> JsonValue {
    JsonValue::Object(map(entries))
}

fn text(x: &str) -> JsonValue {
    JsonValue::String(s(x))
}

fn num(x: &str) -> JsonValue {
    JsonValue::Number(s(x))
}

#[test]
fn test_variable_interpolation() {
    let variables = map(vec![("user", obj(vec![("name", text("Alice"))]))]);
    assert_eq!(template_file("Hello, {{ user.name }}!", &variables).unwrap(), "Hello, Alice!");
}

#[test]
fn test_nested_variable_interpolation() {
    let variables = map(vec![("user", obj(vec![("details", obj(vec![("age", num("30"))]))]))]);
    assert_eq!(template_file("User age: {{ user.details.age }}", &variables).unwrap(), "User age: 30");
}

#[test]
fn test_array_indexing() {
    let variables = map(vec![("items", JsonValue::Array(vec![text("apple"), text("banana")]))]);
    assert_eq!(template_file("First item: {{ items[0] }}", &variables).unwrap(), "First item: apple");
}

#[test]
fn test_complex_key() {
    let variables = map(vec![("object", obj(vec![("complex key", text("value"))]))]);
    assert_eq!(
        template_file("Complex key: {{ object[\"complex key\"] }}", &variables).unwrap(),
        "Complex key: value"
    );
}

#[test]
fn test_escaped_double_braces() {
    let variables = map(vec![]);
    assert_eq!(template_file("\\{{ not_a_variable }}", &variables).unwrap(), "{{ not_a_variable }}");
}

#[test]
fn test_literal_backslash() {
    let variables = map(vec![]);
    assert_eq!(template_file("A literal backslash: \\", &variables).unwrap(), "A literal backslash: \\");
}

#[test]
fn test_unescaped_single_brace() {
    let variables = map(vec![]);
    assert_eq!(
        template_file("Something { with single braces }", &variables).unwrap(),
        "Something { with single braces }"
    );
}

#[test]
fn test_unclosed_variable() {
    let variables = map(vec![]);
    assert!(template_file("Unclosed {{ variable", &variables).is_err());
}

#[test]
fn test_invalid_array_index() {
    let variables = map(vec![("array", JsonValue::Array(vec![num("1"), num("2"), num("3")]))]);
    assert!(template_file("Invalid index: {{ array[-1] }}", &variables).is_err());
}

#[test]
fn test_text_with_no_variable() {
    let variables = map(vec![]);
    assert_eq!(template_file("Just plain text.", &variables).unwrap(), "Just plain text.");
}

#[test]
fn test_missing_variable_error() {
    let variables = map(vec![("present_var", text("exists"))]);
    assert!(matches!(
        template_file("Missing variable: {{ missing_var }}", &variables).unwrap_err(),
        TemplateError::VariableError(VariableError::MissingVariable(_))
    ));
}

#[test]
fn test_type_error_on_indexing_non_array() {
    let variables = map(vec![("object", obj(vec![("key", text("value"))]))]);
    assert!(matches!(
        template_file("Invalid access: {{ object[0] }}", &variables).unwrap_err(),
        TemplateError::VariableError(VariableError::InvalidType(_, _))
    ));
}

#[test]
fn test_escaped_variable() {
    let variables = map(vec![("some_var", text("some_value"))]);
    assert_eq!(template_file("\\\\{{ some_var }}", &variables).unwrap(), "\\some_value");
}

#[test]
fn test_double_escape() {
    let variables = map(vec![]);
    assert_eq!(template_file("  \\\\", &variables).unwrap(), "  \\\\");
}

#[test]
fn arrays_and_objects_render_as_json() {
    let variables = map(vec![
        ("list", JsonValue::Array(vec![num("1"), text("a"), JsonValue::Bool(true), JsonValue::Null])),
        ("o", obj(vec![("b", num("2")), ("a", num("1.5"))])),
    ]);
    assert_eq!(template_file("{{list}}", &variables).unwrap(), "[1,\"a\",true,null]");
    assert_eq!(template_file("{{ o }}", &variables).unwrap(), "{\"a\":1.5,\"b\":2}");
}

#[test]
fn variable_errors_carry_their_details() {
    let variables = map(vec![("a", JsonValue::Array(vec![num("1")])), ("o", obj(vec![]))]);
    match template_file("{{ a[5] }}", &variables).unwrap_err() {
        TemplateError::VariableError(VariableError::IndexOutOfBounds(i, n)) => {
            assert_eq!((i, n), (5, 1));
        },
        other => panic!("unexpected {:?}", other),
    }
    match template_file("{{ o.k }}", &variables).unwrap_err() {
        TemplateError::VariableError(VariableError::KeyNotFound(k)) => assert_eq!(k, "k"),
        other => panic!("unexpected {:?}", other),
    }
    match template_file("{{ a.k }}", &variables).unwrap_err() {
        TemplateError::VariableError(VariableError::InvalidType(want, got)) => {
            assert_eq!(want, "object");
            assert_eq!(got, "array");
        },
        other => panic!("unexpected {:?}", other),
    }
}

#[test]
fn syntax_errors_name_the_character() {
    let variables = map(vec![("a", text("x"))]);
    match template_file("{{ a x }}", &variables).unwrap_err() {
        TemplateError::SyntaxError(m) => assert_eq!(m, "Unexpected character: x"),
        other => panic!("unexpected {:?}", other),
    }
    match template_file("{{ a", &variables).unwrap_err() {
        TemplateError::SyntaxError(m) => assert_eq!(m, "Unclosed variable"),
        other => panic!("unexpected {:?}", other),
    }
    assert_eq!(template_file("{{ a }} and {{a}}", &variables).unwrap(), "x and x");
}

#[test]
fn value_types_are_named() {
    assert_eq!(value_type(&text("x")), "string");
    assert_eq!(value_type(&num("1")), "number");
    assert_eq!(value_type(&JsonValue::Bool(false)), "boolean");
    assert_eq!(value_type(&JsonValue::Array(vec![])), "array");
    assert_eq!(value_type(&obj(vec![])), "object");
    assert_eq!(value_type(&JsonValue::Null), "null");
}
