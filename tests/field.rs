use bevy_prototype_animation::field::{
    parse_index, Access, AccessRef, FieldPath, IndexErrorKind, PathParser, ReflectPathError, Token,
};

fn accesses(path: &FieldPath) -> Vec<(Access, usize)> {
    path.iter().to_vec()
}

#[test]
fn parse_index_reads_decimal_numbers() {
    assert_eq!(parse_index("0"), Ok(0));
    assert_eq!(parse_index("42"), Ok(42));
    assert_eq!(parse_index("+7"), Ok(7));
    assert_eq!(parse_index(&usize::MAX.to_string()), Ok(usize::MAX));
}

#[test]
fn parse_index_rejects_bad_text() {
    assert_eq!(parse_index(""), Err(IndexErrorKind::Empty));
    assert_eq!(parse_index("+"), Err(IndexErrorKind::InvalidDigit));
    assert_eq!(parse_index("-1"), Err(IndexErrorKind::InvalidDigit));
    assert_eq!(parse_index("12a"), Err(IndexErrorKind::InvalidDigit));
    assert_eq!(parse_index(" 1"), Err(IndexErrorKind::InvalidDigit));
    assert_eq!(parse_index("99999999999999999999999"), Err(IndexErrorKind::Overflow));
}

#[test]
fn field_path_parses_fields_tuple_and_list_indices() {
    let path = FieldPath::parse("a.b[2].0").unwrap();
    assert_eq!(
        accesses(&path),
        vec![
            (Access::Field("a".to_string()), 1),
            (Access::Field("b".to_string()), 2),
            (Access::ListIndex(2), 4),
            (Access::TupleIndex(0), 7),
        ]
    );
    assert_eq!(path.len(), 4);
    assert_eq!(path.to_path_string(), "a.b.[2].0");
}

#[test]
fn field_path_of_empty_text_is_empty() {
    let path = FieldPath::parse("").unwrap();
    assert!(path.is_empty());
    assert_eq!(path.to_path_string(), "");
}

#[test]
fn field_path_errors() {
    assert_eq!(
        FieldPath::parse("a.b.c.d.e.f..g"),
        Err(ReflectPathError::ExpectedIdent { index: 12 })
    );
    assert_eq!(FieldPath::parse("a."), Err(ReflectPathError::ExpectedIdent { index: 2 }));
    assert_eq!(
        FieldPath::parse("]"),
        Err(ReflectPathError::UnexpectedToken { index: 1, token: ']' })
    );
    assert_eq!(
        FieldPath::parse("a[2"),
        Err(ReflectPathError::ExpectedToken { index: 2, token: ']' })
    );
    assert_eq!(FieldPath::parse("a[]"), Err(ReflectPathError::ExpectedIdent { index: 2 }));
    assert_eq!(
        FieldPath::parse("a[x]"),
        Err(ReflectPathError::IndexParseError(IndexErrorKind::InvalidDigit))
    );
    assert_eq!(
        FieldPath::parse("a[99999999999999999999999]"),
        Err(ReflectPathError::IndexParseError(IndexErrorKind::Overflow))
    );
}

#[test]
fn field_path_keeps_whitespace_in_names() {
    let path = FieldPath::parse("f a.g").unwrap();
    assert_eq!(
        accesses(&path),
        vec![(Access::Field("f a".to_string()), 3), (Access::Field("g".to_string()), 4)]
    );
}

#[test]
fn field_path_push_and_pop() {
    let mut path = FieldPath::parse("a.b").unwrap();
    path.push("c");
    assert_eq!(path.to_path_string(), "a.b.c");
    assert_eq!(accesses(&path)[2], (Access::Field("c".to_string()), 4));
    assert_eq!(path.pop(), Some(Access::Field("c".to_string())));
    assert_eq!(path.pop(), Some(Access::Field("b".to_string())));
    assert_eq!(path.pop(), Some(Access::Field("a".to_string())));
    assert_eq!(path.pop(), None);
    path.push("root");
    assert_eq!(accesses(&path), vec![(Access::Field("root".to_string()), 4)]);
}

#[test]
fn access_round_trips_through_borrowed_form() {
    let owned = Access::Field("x".to_string());
    let borrowed = owned.to_ref();
    assert!(matches!(borrowed, AccessRef::Field("x")));
    assert_eq!(borrowed.to_owned(), owned);
    assert_eq!(Access::ListIndex(3).to_ref().to_owned(), Access::ListIndex(3));
    assert_eq!(Access::TupleIndex(1).duplicate(), Access::TupleIndex(1));
}

#[test]
fn path_parser_reads_tokens() {
    let mut parser = PathParser::new("ab.[1]");
    assert!(matches!(parser.next_token(), Some(Token::Ident("ab"))));
    assert!(matches!(parser.next_token(), Some(Token::Dot)));
    assert!(matches!(parser.next_token(), Some(Token::OpenBracket)));
    assert!(matches!(parser.next_token(), Some(Token::Ident("1"))));
    assert!(matches!(parser.next_token(), Some(Token::CloseBracket)));
    assert!(parser.next_token().is_none());
}

#[test]
fn path_parser_turns_tokens_into_accesses() {
    let mut parser = PathParser::new("x.5");
    let first = parser.next().unwrap();
    assert!(matches!(first, (Ok(AccessRef::Field("x")), 1)));
    let second = parser.next().unwrap();
    assert!(matches!(second, (Ok(AccessRef::TupleIndex(5)), 2)));
    assert!(parser.next().is_none());
    let mut parser = PathParser::new("[4]");
    let token = parser.next_token().unwrap();
    assert!(matches!(parser.token_to_access(token), Ok(AccessRef::ListIndex(4))));
}
