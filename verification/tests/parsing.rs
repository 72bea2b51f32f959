use path_template::{ParsingError, PathAndValue, Template};

#[test]
fn parse_path_and_value() {
    assert!(PathAndValue::parse("some/path:value").is_ok());
    assert_eq!(
        PathAndValue::parse("some/path:value").unwrap(),
        PathAndValue {
            path: vec!["some".into(), "path".into()],
            value: "value".into()
        }
    );
}

#[test]
fn parse_template_values() {
    assert!(Template::parse("a/b:c\ne/r/t:y").is_ok());
}

#[test]
fn template_of_two_lines_keeps_order() {
    let t = Template::parse("a/b:c\ne/r/t:y").unwrap();
    assert_eq!(t.fields.len(), 2);
    assert_eq!(
        t.fields[0],
        PathAndValue {
            path: vec!["a".into(), "b".into()],
            value: "c".into()
        }
    );
    assert_eq!(
        t.fields[1],
        PathAndValue {
            path: vec!["e".into(), "r".into(), "t".into()],
            value: "y".into()
        }
    );
}

#[test]
fn line_without_delimiter_fails() {
    let r = PathAndValue::parse("novalue");
    assert!(matches!(r, Err(ParsingError::InvalidPathAndValue)));
}

#[test]
fn empty_line_fails() {
    assert!(matches!(
        PathAndValue::parse(""),
        Err(ParsingError::InvalidPathAndValue)
    ));
}

#[test]
fn rightmost_colon_is_the_split_point() {
    let pv = PathAndValue::parse("a:b:c").unwrap();
    assert_eq!(pv.value, "c");
    assert_eq!(pv.path, vec!["a:b".to_string()]);
}

#[test]
fn leading_separator_keeps_empty_segment() {
    let pv = PathAndValue::parse("/a:v").unwrap();
    assert_eq!(pv.path, vec!["".to_string(), "a".to_string()]);
    assert_eq!(pv.value, "v");
}

#[test]
fn doubled_separator_keeps_empty_segment() {
    let pv = PathAndValue::parse("a//b:v").unwrap();
    assert_eq!(
        pv.path,
        vec!["a".to_string(), "".to_string(), "b".to_string()]
    );
}

#[test]
fn empty_value_is_kept() {
    let pv = PathAndValue::parse("path:").unwrap();
    assert_eq!(pv.path, vec!["path".to_string()]);
    assert_eq!(pv.value, "");
}

#[test]
fn empty_path_segment_before_delimiter() {
    let pv = PathAndValue::parse(":value").unwrap();
    assert_eq!(pv.path, vec!["".to_string()]);
    assert_eq!(pv.value, "value");
}

#[test]
fn value_may_contain_slashes() {
    let pv = PathAndValue::parse("a/b:x/y/z").unwrap();
    assert_eq!(pv.path, vec!["a".to_string(), "b".to_string()]);
    assert_eq!(pv.value, "x/y/z");
}

#[test]
fn empty_template_has_no_fields() {
    let t = Template::parse("").unwrap();
    assert_eq!(t.fields.len(), 0);
}

#[test]
fn template_line_count_matches_input() {
    let t = Template::parse("a:1\nb:2\nc:3").unwrap();
    assert_eq!(t.fields.len(), 3);
    assert_eq!(t.fields[0].value, "1");
    assert_eq!(t.fields[1].value, "2");
    assert_eq!(t.fields[2].value, "3");
}

#[test]
fn trailing_newline_adds_no_field() {
    let t = Template::parse("a:1\nb:2\n").unwrap();
    assert_eq!(t.fields.len(), 2);
}

#[test]
fn carriage_return_is_stripped_from_line() {
    let t = Template::parse("a:1\r\nb:2").unwrap();
    assert_eq!(t.fields.len(), 2);
    assert_eq!(t.fields[0].value, "1");
    assert_eq!(t.fields[1].value, "2");
}

#[test]
fn bad_second_line_fails_whole_template() {
    let r = Template::parse("good:1\nbad");
    assert!(matches!(r, Err(ParsingError::InvalidPathAndValue)));
}

#[test]
fn bad_line_fails_regardless_of_later_lines() {
    let r = Template::parse("good:1\nbad\nalso/good:2");
    assert!(matches!(r, Err(ParsingError::InvalidPathAndValue)));
}

#[test]
fn blank_line_fails_template() {
    let r = Template::parse("a:1\n\nb:2");
    assert!(matches!(r, Err(ParsingError::InvalidPathAndValue)));
}

#[test]
fn error_message_text() {
    let e = ParsingError::InvalidPathAndValue;
    assert_eq!(e.message(), "invalid path and value format");
}

#[test]
fn records_with_different_values_differ() {
    let a = PathAndValue::parse("x/y:1").unwrap();
    let b = PathAndValue::parse("x/y:2").unwrap();
    let c = PathAndValue::parse("x/y:1").unwrap();
    assert!(a != b);
    assert_eq!(a, c);
}

#[test]
fn records_with_different_paths_differ() {
    let a = PathAndValue::parse("x/y:1").unwrap();
    let b = PathAndValue::parse("x:1").unwrap();
    assert!(a != b);
}
