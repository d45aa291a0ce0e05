use driven::parser::{
    drivenfile, lit, litpart, parse, quoted_string, str_part, variable_assignment, DrivenVar,
    ParseError, ParseErrorKind, StringPart,
};

fn assign(internal: bool, name: &str, value: &str) -> DrivenVar {
    DrivenVar { internal, name: lit(name), value: lit(value) }
}

#[test]
fn str_part_test() {
    assert_eq!(str_part("foo"), Ok(("", litpart("foo"))));
    assert_eq!(str_part(r#"foo\"a"#), Ok(("", litpart(r#"foo"a"#))));
    assert_eq!(str_part(r#"foo\\foo"#), Ok(("", litpart(r#"foo\foo"#))));
    assert_eq!(str_part("ご飯"), Ok(("", litpart("ご飯"))));
    assert_eq!(
        str_part(r#"foo\1foo"#),
        Err(ParseError { kind: ParseErrorKind::BadEscape, pos: 4 })
    );
}

#[test]
fn quoted_str_test() {
    assert_eq!(quoted_string(r#""foo""#), Ok(("", lit("foo"))));
}

#[test]
fn variable_assignment_test() {
    assert_eq!(variable_assignment(r#"foo="bar""#), Ok(("", assign(false, "foo", "bar"))));
    assert_eq!(variable_assignment(r#""foo"="bar""#), Ok(("", assign(false, "foo", "bar"))));
    assert_eq!(variable_assignment(r#" "foo" = "bar" "#), Ok(("", assign(false, "foo", "bar"))));
    assert_eq!(
        variable_assignment(r#" internal "foo" = "bar" "#),
        Ok(("", assign(true, "foo", "bar")))
    );
    assert!(variable_assignment(" foo = \n \"bar\" ").is_err());
}

#[test]
fn str_part_stops_at_quote() {
    assert_eq!(str_part(r#"ab"cd"#), Ok((r#""cd"#, litpart("ab"))));
}

#[test]
fn escapes_unescape_to_one_character() {
    assert_eq!(quoted_string(r#""\n""#), Ok(("", lit("\n"))));
    assert_eq!(quoted_string(r#""\"""#), Ok(("", lit("\""))));
    assert_eq!(quoted_string(r#""\$""#), Ok(("", lit("$"))));
    assert_eq!(quoted_string(r#""\\""#), Ok(("", lit("\\"))));
}

#[test]
fn plain_string_round_trips() {
    assert_eq!(quoted_string(r#""a b=c $x ご飯""#), Ok(("", lit("a b=c $x ご飯"))));
    assert_eq!(quoted_string(r#""""#), Ok(("", lit(""))));
    assert_eq!(quoted_string(r#""x" rest"#), Ok((" rest", lit("x"))));
}

#[test]
fn unknown_escape_is_rejected() {
    assert_eq!(
        quoted_string(r#""ab\qc""#),
        Err(ParseError { kind: ParseErrorKind::BadEscape, pos: 4 })
    );
    assert_eq!(
        quoted_string(r#""ab\"#),
        Err(ParseError { kind: ParseErrorKind::BadEscape, pos: 4 })
    );
}

#[test]
fn unterminated_string_is_rejected() {
    assert_eq!(
        quoted_string(r#""abc"#),
        Err(ParseError { kind: ParseErrorKind::UnterminatedString, pos: 4 })
    );
}

#[test]
fn missing_quote_is_rejected() {
    assert_eq!(
        quoted_string("abc"),
        Err(ParseError { kind: ParseErrorKind::ExpectedValue, pos: 0 })
    );
}

#[test]
fn assignment_errors() {
    assert_eq!(
        variable_assignment(r#"foo "bar""#),
        Err(ParseError { kind: ParseErrorKind::ExpectedEquals, pos: 4 })
    );
    assert_eq!(
        variable_assignment("foo="),
        Err(ParseError { kind: ParseErrorKind::ExpectedValue, pos: 4 })
    );
    assert_eq!(
        variable_assignment(r#"="x""#),
        Err(ParseError { kind: ParseErrorKind::ExpectedName, pos: 0 })
    );
    assert_eq!(
        variable_assignment("foo=\n\"bar\""),
        Err(ParseError { kind: ParseErrorKind::ExpectedValue, pos: 4 })
    );
}

#[test]
fn whitespace_is_tolerated() {
    assert_eq!(
        variable_assignment("\t foo \t=\t \"bar\" \t\nnext"),
        Ok(("next", assign(false, "foo", "bar")))
    );
    assert_eq!(
        variable_assignment("internal \t foo=\"bar\""),
        Ok(("", assign(true, "foo", "bar")))
    );
}

#[test]
fn internal_keyword_needs_a_following_name() {
    assert_eq!(variable_assignment(r#"internal="x""#), Ok(("", assign(false, "internal", "x"))));
    assert_eq!(variable_assignment(r#"internal = "x""#), Ok(("", assign(false, "internal", "x"))));
    assert_eq!(
        variable_assignment(r#"internalfoo="x""#),
        Ok(("", assign(false, "internalfoo", "x")))
    );
}

#[test]
fn names_take_unicode_letters_and_underscores() {
    assert_eq!(variable_assignment(r#"ñame_1="x""#), Ok(("", assign(false, "ñame_1", "x"))));
    assert_eq!(
        variable_assignment(r#"a-b="x""#),
        Err(ParseError { kind: ParseErrorKind::ExpectedEquals, pos: 1 })
    );
}

#[test]
fn parse_reads_every_statement() {
    let f = parse("a=\"1\"\n\n  internal b = \"2\"\r\n\"c d\"=\"3\"\n").unwrap();
    assert!(!f.ignore_parents);
    assert!(!f.allow_shell_exec);
    assert_eq!(
        f.variables,
        vec![assign(false, "a", "1"), assign(true, "b", "2"), assign(false, "c d", "3")]
    );
    assert_eq!(parse("").unwrap().variables, vec![]);
    assert_eq!(parse(" \n\t\n").unwrap().variables, vec![]);
}

#[test]
fn parse_fails_on_one_bad_statement() {
    assert_eq!(
        parse("a=\"1\"\nb=\"\\x\"\n"),
        Err(ParseError { kind: ParseErrorKind::BadEscape, pos: 10 })
    );
    assert_eq!(
        parse("a=\"1\"\n!"),
        Err(ParseError { kind: ParseErrorKind::ExpectedName, pos: 6 })
    );
}

#[test]
fn drivenfile_reports_a_diagnostic() {
    assert_eq!(
        drivenfile("a=\"1\"\nb \"2\""),
        Err("expected '=' after the variable name in assignment at: \"2\"".to_string())
    );
    assert_eq!(
        drivenfile("a=\"1"),
        Err("missing closing quote in string at: ".to_string())
    );
    assert_eq!(
        drivenfile(r#"x="a\qb""#),
        Err(r#"expected a valid backslash escape character in string at: qb""#.to_string())
    );
    assert_eq!(
        drivenfile("=\"a\""),
        Err("expected an identifier or a quoted name in variable name at: =\"a\"".to_string())
    );
    let f = drivenfile("x=\"y\"").unwrap();
    assert_eq!(f.variables, vec![assign(false, "x", "y")]);
}

#[test]
fn lit_builds_one_literal_part() {
    assert_eq!(lit("ab").parts, vec![StringPart::Literal("ab".to_string())]);
    assert_eq!(litpart("ab"), StringPart::Literal("ab".to_string()));
}
